use term::color;
use term_string::{Attr, TermString, TermStyle};

fn pieces(ts: &TermString) -> Vec<(TermStyle, String)> {
    ts.segments()
}

fn piece(style: TermStyle, text: &str) -> (TermStyle, String) {
    (style, text.to_string())
}

fn fg_bg() -> TermStyle {
    TermStyle::bg(color::RED) + TermStyle::fg(color::WHITE)
}

#[test]
fn new_holds_one_piece() {
    let bold = TermStyle::bold();
    let ts = TermString::new(bold, "some bold text");
    assert_eq!(pieces(&ts), vec![piece(bold, "some bold text")]);
    assert_eq!(ts.as_string(), "some bold text");
}

#[test]
fn len_adds_up_pieces() {
    let bold = TermStyle::bold();
    let underline = TermStyle::underline(true);
    let mut ts = TermString::new(bold, "some bold text ");
    ts += TermString::new(underline, "and some underlined text.");
    assert_eq!(ts.len(), 40);
}

#[test]
fn len_counts_bytes() {
    let ts = TermString::new(TermStyle::default(), "héllo");
    assert_eq!(ts.len(), 6);
    assert_eq!(ts.as_string().len(), ts.len());
}

#[test]
fn is_empty_with_a_piece() {
    let bold = TermStyle::bold();
    let mut ts = TermString::new(bold, "");
    assert!(ts.is_empty());
    assert_eq!(ts.len(), 0);
    assert_eq!(pieces(&ts).len(), 1);
    ts += "this is bold.";
    assert!(!ts.is_empty());
    assert_eq!(pieces(&ts), vec![piece(bold, "this is bold.")]);
}

#[test]
fn as_string_concatenates() {
    let bold = TermStyle::bold();
    let underline = TermStyle::underline(true);
    let mut ts = TermString::new(bold, "some bold text ");
    ts += TermString::new(underline, "and some underlined text.");
    let s = "some bold text and some underlined text.";
    assert_eq!(ts.as_string(), s);
}

#[test]
fn append_str_inherits_style() {
    let bold = TermStyle::bold();
    let mut ts = TermString::new(bold, "some bold text ");
    ts.append_str("and other bold text");
    assert_eq!(
        pieces(&ts),
        vec![piece(bold, "some bold text and other bold text")]
    );
    let mut ts2 = TermString::new(bold, "some bold text ");
    ts2 += "and other bold text";
    assert_eq!(pieces(&ts), pieces(&ts2));
}

#[test]
fn append_str_to_no_piece() {
    let mut ts = TermString::default();
    ts.append_str("");
    assert!(pieces(&ts).is_empty());
    ts.append_str("plain");
    assert_eq!(pieces(&ts), vec![piece(TermStyle::default(), "plain")]);
}

#[test]
fn append_term_str_keeps_both_styles() {
    let bold = TermStyle::bold();
    let underline = TermStyle::underline(true);
    let mut ts = TermString::new(bold, "some bold text ");
    let ts2 = TermString::new(underline, "and some underlined text.");
    ts.append_term_str(ts2);
    let expected = vec![
        piece(bold, "some bold text "),
        piece(underline, "and some underlined text."),
    ];
    assert_eq!(pieces(&ts), expected);

    let mut ts3 = TermString::new(bold, "some bold text ");
    ts3 += TermString::new(underline, "and some underlined text.");
    assert_eq!(pieces(&ts3), expected);

    let mut ts4 = TermString::new(bold, "some bold text ");
    ts4.append(TermString::new(underline, "and some underlined text."));
    assert_eq!(pieces(&ts4), expected);
}

#[test]
fn append_term_str_of_plain_text_has_no_style() {
    let bold = TermStyle::bold();
    let mut ts = TermString::new(bold, "some bold text ");
    ts.append_term_str(TermString::from("and some un-styled text."));
    let expected = vec![
        piece(bold, "some bold text "),
        piece(TermStyle::default(), "and some un-styled text."),
    ];
    assert_eq!(pieces(&ts), expected);

    let mut ts2 = TermString::new(bold, "some bold text ");
    ts2 += TermString::new(TermStyle::default(), "and some un-styled text.");
    assert_eq!(pieces(&ts2), expected);
}

#[test]
fn append_term_str_merges_leading_run_only() {
    let x = TermStyle::bold();
    let y = TermStyle::underline(true);
    let mut ts = TermString::new(x, "1");
    let other = TermString::new(x, "2")
        .with_appended_term_str(TermString::new(y, "3"))
        .with_appended_term_str(TermString::new(x, "4"));
    assert_eq!(
        pieces(&other),
        vec![piece(x, "2"), piece(y, "3"), piece(x, "4")]
    );
    ts.append_term_str(other);
    assert_eq!(
        pieces(&ts),
        vec![piece(x, "12"), piece(y, "3"), piece(x, "4")]
    );
    assert_eq!(ts.as_string(), "1234");
}

#[test]
fn append_term_str_merges_equal_styles() {
    let bold = TermStyle::bold();
    let mut ts = TermString::new(bold, "a");
    ts += TermString::new(bold, "b");
    assert_eq!(pieces(&ts), vec![piece(bold, "ab")]);
}

#[test]
fn append_term_str_drops_blank_pieces() {
    let bold = TermStyle::bold();
    let mut ts = TermString::new(TermStyle::default(), "");
    ts.append_term_str(TermString::new(bold, "x"));
    assert_eq!(pieces(&ts), vec![piece(bold, "x")]);

    let mut empty_bold = TermString::new(bold, "");
    empty_bold += TermString::new(TermStyle::default(), "");
    assert_eq!(pieces(&empty_bold), vec![piece(bold, "")]);

    let mut none = TermString::new(TermStyle::default(), "");
    none += TermString::new(TermStyle::default(), "");
    assert!(pieces(&none).is_empty());
}

#[test]
fn add_operators() {
    let bold = TermStyle::bold();
    let underline = TermStyle::underline(true);
    let ts = TermString::new(bold, "a") + "b";
    assert_eq!(pieces(&ts), vec![piece(bold, "ab")]);
    let ts = ts + TermString::new(underline, "c");
    assert_eq!(pieces(&ts), vec![piece(bold, "ab"), piece(underline, "c")]);
}

#[test]
fn chaining_forms() {
    let bold = TermStyle::bold();
    let ts = TermString::new(bold, "a")
        .with_appended_str("b")
        .with_appended(TermString::from("c"));
    assert_eq!(
        pieces(&ts),
        vec![piece(bold, "ab"), piece(TermStyle::default(), "c")]
    );
    let ts = ts.with_set_style(TermStyle::dim());
    assert_eq!(
        pieces(&ts),
        vec![piece(TermStyle::dim(), "ab"), piece(TermStyle::dim(), "c")]
    );
    let ts = ts.with_reset_style();
    assert_eq!(
        pieces(&ts),
        vec![piece(TermStyle::default(), "ab"), piece(TermStyle::default(), "c")]
    );
    let ts = ts.with_ored_style(bold).with_style(TermStyle::fg(color::GREEN));
    let both = TermStyle::bold() + TermStyle::fg(color::GREEN);
    assert_eq!(pieces(&ts), vec![piece(both, "ab"), piece(both, "c")]);
}

fn two_pieces() -> TermString {
    let underline = TermStyle::underline(true);
    let mut ts = TermString::new(fg_bg(), "fg bg");
    ts += TermString::new(underline, " underline");
    ts
}

#[test]
fn set_style_replaces_every_style() {
    let mut ts = two_pieces();
    ts.set_style(TermStyle::bold());
    assert_eq!(
        pieces(&ts),
        vec![
            piece(TermStyle::bold(), "fg bg"),
            piece(TermStyle::bold(), " underline")
        ]
    );
    assert_eq!(ts.as_string(), "fg bg underline");
}

#[test]
fn reset_style_removes_every_style() {
    let mut ts = two_pieces();
    ts.reset_style();
    assert_eq!(
        pieces(&ts),
        vec![
            piece(TermStyle::default(), "fg bg"),
            piece(TermStyle::default(), " underline")
        ]
    );
}

#[test]
fn or_style_fills_unset_slots() {
    let mut ts = two_pieces();
    ts.or_style(TermStyle::bg(color::BLUE));
    let p = pieces(&ts);
    assert_eq!(p[0].0.bg, Some(color::RED));
    assert_eq!(p[0].0.fg, Some(color::WHITE));
    assert_eq!(p[1].0.bg, Some(color::BLUE));
    assert_eq!(p[1].0.underline, Some(true));
    assert_eq!(p[1].0.fg, None);
}

#[test]
fn add_style_overrides_set_slots() {
    let mut ts = two_pieces();
    ts.add_style(TermStyle::bg(color::BLUE));
    let p = pieces(&ts);
    assert_eq!(p[0].0.bg, Some(color::BLUE));
    assert_eq!(p[0].0.fg, Some(color::WHITE));
    assert_eq!(p[1].0.bg, Some(color::BLUE));
    assert_eq!(p[1].0.underline, Some(true));
}

#[test]
fn style_or_and_add() {
    let a = TermStyle::bg(color::RED) + TermStyle::italic(false);
    let b = TermStyle::bg(color::BLUE) + TermStyle::bold();
    let mut ored = a;
    ored.or_style(b);
    let mut added = b;
    added.add_style(a);
    assert_eq!(ored, added);
    assert_eq!(ored.bg, Some(color::RED));
    assert!(ored.bold);
    let mut plain = a;
    plain.add_style(TermStyle::default());
    assert_eq!(plain, a);
    let mut reset = a;
    reset.reset();
    assert_eq!(reset, TermStyle::default());
}

#[test]
fn style_attrs_in_slot_order() {
    let s = TermStyle::fg(color::RED)
        + TermStyle::underline(true)
        + TermStyle::bold()
        + TermStyle::bg(color::BLUE)
        + TermStyle::standout(false);
    assert_eq!(
        s.attrs(),
        vec![
            Attr::Bold,
            Attr::Underline(true),
            Attr::Standout(false),
            Attr::ForegroundColor(color::RED),
            Attr::BackgroundColor(color::BLUE)
        ]
    );
    assert!(TermStyle::default().attrs().is_empty());
    let all = TermStyle::dim() + TermStyle::italic(true) + TermStyle::blink()
        + TermStyle::reverse() + TermStyle::secure();
    assert_eq!(
        all.attrs(),
        vec![Attr::Dim, Attr::Italic(true), Attr::Blink, Attr::Reverse, Attr::Secure]
    );
}

#[test]
fn appended_lengths_and_texts_add_up() {
    let a = TermString::new(TermStyle::bold(), "αβ") + TermString::new(TermStyle::dim(), "c");
    let b = TermString::new(TermStyle::dim(), "dé") + TermString::from("");
    let (la, lb) = (a.len(), b.len());
    let (sa, sb) = (a.as_string(), b.as_string());
    let joined = a + b;
    assert_eq!(joined.len(), la + lb);
    assert_eq!(joined.as_string(), sa + &sb);
    assert_eq!(
        pieces(&joined),
        vec![piece(TermStyle::bold(), "αβ"), piece(TermStyle::dim(), "cdé")]
    );
}

#[test]
fn from_owned_string_has_no_style() {
    let ts = TermString::from(String::from("owned"));
    assert_eq!(pieces(&ts), vec![piece(TermStyle::default(), "owned")]);
    let mut bold = TermString::new(TermStyle::bold(), "a ");
    bold.append_term_str(TermString::from(String::from("b")));
    assert_eq!(
        pieces(&bold),
        vec![piece(TermStyle::bold(), "a "), piece(TermStyle::default(), "b")]
    );
}

#[test]
fn clone_and_debug() {
    let ts = TermString::new(TermStyle::bold(), "x") + TermString::new(TermStyle::dim(), "y");
    let copy = ts.clone();
    assert_eq!(pieces(&copy), pieces(&ts));
    assert!(format!("{:?}", ts).contains("TermString"));
}

#[test]
fn appended_characters_keep_their_styles() {
    let bold = TermStyle::bold();
    let dim = TermStyle::dim();
    let a = TermString::new(bold, "ab");
    let b = TermString::new(bold, "c") + TermString::new(dim, "d");
    let joined = a + b;
    let mut styled = Vec::new();
    for (style, text) in joined.segments() {
        for c in text.chars() {
            styled.push((style, c));
        }
    }
    assert_eq!(styled, vec![(bold, 'a'), (bold, 'b'), (bold, 'c'), (dim, 'd')]);
}
