//! The executable parser.  Each function consumes a prefix of its input
//! slice and returns the parsed value with the remaining tail; its contract
//! states that the result is exactly what the corresponding grammar
//! production yields on the input's characters.

use vstd::prelude::*;
use vstd::string::*;

use crate::grammar;
use crate::grammar::digits_val;
use crate::grammar::sat_u32;
use crate::model::CodeBlockParams;
use crate::model::CodeFontStyle;
use crate::model::HeaderSize;
use crate::model::Image;
use crate::model::ImageParams;
use crate::model::Language;
use crate::model::Presentation;
use crate::model::Slide;
use crate::model::SlideNode;
use crate::model::image_opt_view;
use crate::scan::CharClass;
use crate::scan::char_len;
use crate::scan::in_class;
use crate::scan::lemma_skip_skip;
use crate::scan::match_at;
use crate::scan::run_in;
use crate::scan::split_from;
use crate::scan::split_from_trimmed;

verus! {

/// Parse a header: `#` marks, a space, then text up to the next blank line.
pub fn parse_header<'a>(input: &'a str) -> (r: Option<(HeaderSize, String, &'a str)>)
    ensures
        match r {
            Some(v) => grammar::header(input@) == Some((v.0, v.1@, v.2@)),
            None => grammar::header(input@) is None,
        },
{
    let n = char_len(input);
    let hr = run_in(input, 0, n, CharClass::Hash);
    proof {
        assert(input@.subrange(0, n as int) =~= input@);
    }
    let h = if hr > 5 {
        5
    } else {
        hr
    };
    if h < 1 {
        return None;
    }
    let sp = run_in(input, h, n, CharClass::Space);
    proof {
        assert(input@.subrange(h as int, n as int) =~= input@.skip(h as int));
    }
    if sp < 1 {
        return None;
    }
    proof {
        lemma_skip_skip(input@, h as int, sp as int);
    }
    let (text, tail) = split_from_trimmed(input, h + sp, "\n\n");
    match HeaderSize::from_level(h) {
        Some(hs) => Some((hs, text, tail)),
        None => {
            // Unreachable: the count of marks was clamped into one to five.
            proof {
                assert(false);
            }
            None
        },
    }
}

/// Parse a comment: a literal `//`, then text up to the next blank line,
/// kept verbatim.
pub fn parse_comment<'a>(input: &'a str) -> (r: Option<(String, &'a str)>)
    ensures
        match r {
            Some(v) => grammar::comment(input@) == Some((v.0@, v.1@)),
            None => grammar::comment(input@) is None,
        },
{
    if !match_at(input, 0, "//") {
        return None;
    }
    let plen = "//".unicode_len();
    let (text, tail) = split_from(input, plen, "\n\n");
    Some((text, tail))
}

/// Parse a plain text paragraph up to the next blank line, trimmed.  This
/// is the fallback of the node dispatcher and never fails.
pub fn parse_text_section<'a>(input: &'a str) -> (r: (String, &'a str))
    ensures
        grammar::text_section(input@).0 == r.0@,
        grammar::text_section(input@).1 == r.1@,
{
    proof {
        assert(input@.skip(0) =~= input@);
    }
    split_from_trimmed(input, 0, "\n\n")
}

/// The value of the digit characters at `from..to`, if it fits in `u16`.
fn digits_to_u16(s: &str, from: usize, to: usize) -> (r: Option<u16>)
    requires
        from <= to <= s@.len(),
        forall|j: int| from <= j < to ==> in_class(CharClass::Digit, #[trigger] s@[j]),
    ensures
        ({
            let v = digits_val(s@.subrange(from as int, to as int));
            match r {
                Some(x) => x == v,
                None => v > u16::MAX,
            }
        }),
{
    let ghost sub = s@.subrange(from as int, to as int);
    proof {
        assert forall|t: int| 0 <= t < sub.len() implies in_class(
            CharClass::Digit,
            #[trigger] sub[t],
        ) by {
            assert(sub[t] == s@[from + t]);
        }
    }
    let mut acc: u32 = 0;
    let mut j: usize = from;
    while j < to
        invariant
            from <= j <= to <= s@.len(),
            forall|t: int| from <= t < to ==> in_class(CharClass::Digit, #[trigger] s@[t]),
            forall|t: int| 0 <= t < sub.len() ==> in_class(CharClass::Digit, #[trigger] sub[t]),
            sub == s@.subrange(from as int, to as int),
            acc <= u16::MAX,
            acc == digits_val(s@.subrange(from as int, j as int)),
        decreases to - j,
    {
        let c = s.get_char(j);
        let d: u32 = (c as u32) - 48;
        let acc2: u32 = acc * 10 + d;
        proof {
            assert(s@.subrange(from as int, j + 1).drop_last() =~= s@.subrange(
                from as int,
                j as int,
            ));
            assert(s@.subrange(from as int, j + 1).last() == s@[j as int]);
            assert(acc2 == digits_val(s@.subrange(from as int, j + 1)));
        }
        if acc2 > 65535 {
            proof {
                assert(sub.take(j + 1 - from) =~= s@.subrange(from as int, j + 1));
                grammar::lemma_digits_val_monotone(sub, j + 1 - from);
            }
            return None;
        }
        acc = acc2;
        j = j + 1;
    }
    Some(acc as u16)
}

/// The value of the digit characters at `from..to`, saturating into `u32`.
fn digits_to_u32_sat(s: &str, from: usize, to: usize) -> (r: u32)
    requires
        from <= to <= s@.len(),
        forall|j: int| from <= j < to ==> in_class(CharClass::Digit, #[trigger] s@[j]),
    ensures
        r == sat_u32(digits_val(s@.subrange(from as int, to as int))),
{
    let ghost sub = s@.subrange(from as int, to as int);
    proof {
        assert forall|t: int| 0 <= t < sub.len() implies in_class(
            CharClass::Digit,
            #[trigger] sub[t],
        ) by {
            assert(sub[t] == s@[from + t]);
        }
    }
    let mut acc: u32 = 0;
    let mut j: usize = from;
    while j < to
        invariant
            from <= j <= to <= s@.len(),
            forall|t: int| from <= t < to ==> in_class(CharClass::Digit, #[trigger] s@[t]),
            forall|t: int| 0 <= t < sub.len() ==> in_class(CharClass::Digit, #[trigger] sub[t]),
            sub == s@.subrange(from as int, to as int),
            acc == digits_val(s@.subrange(from as int, j as int)),
        decreases to - j,
    {
        let c = s.get_char(j);
        let d: u64 = (c as u64) - 48;
        let acc2: u64 = (acc as u64) * 10 + d;
        proof {
            assert(s@.subrange(from as int, j + 1).drop_last() =~= s@.subrange(
                from as int,
                j as int,
            ));
            assert(s@.subrange(from as int, j + 1).last() == s@[j as int]);
            assert(acc2 == digits_val(s@.subrange(from as int, j + 1)));
        }
        if acc2 > 0xffff_ffff {
            proof {
                assert(sub.take(j + 1 - from) =~= s@.subrange(from as int, j + 1));
                grammar::lemma_digits_val_monotone(sub, j + 1 - from);
            }
            return u32::MAX;
        }
        acc = acc2 as u32;
        j = j + 1;
    }
    acc
}

/// Parse an unnumbered list: one or more `- item` lines, closed by one more
/// newline.
pub fn parse_unnumbered_list<'a>(input: &'a str) -> (r: Option<(Vec<String>, &'a str)>)
    ensures
        match r {
            Some(v) => grammar::ulist(input@) == Some((v.0.deep_view(), v.1@)),
            None => grammar::ulist(input@) is None,
        },
{
    let mut cur: &str = input;
    let mut items: Vec<String> = Vec::new();
    proof {
        assert(items.deep_view() + grammar::ulist_items(cur@).0 =~= grammar::ulist_items(cur@).0);
    }
    loop
        invariant
            grammar::ulist_items(input@).0 == items.deep_view() + grammar::ulist_items(cur@).0,
            grammar::ulist_items(input@).1 == grammar::ulist_items(cur@).1,
        ensures
            grammar::ulist_items(input@).0 == items.deep_view() + grammar::ulist_items(cur@).0,
            grammar::ulist_items(input@).1 == grammar::ulist_items(cur@).1,
            grammar::ulist_item(cur@) is None,
        decreases cur@.len(),
    {
        let n = char_len(cur);
        if n == 0 {
            break;
        }
        let c0 = cur.get_char(0);
        if c0 != '-' {
            break;
        }
        let sp = run_in(cur, 1, n, CharClass::Space);
        proof {
            assert(cur@.subrange(1, n as int) =~= cur@.skip(1));
        }
        if sp < 1 {
            break;
        }
        proof {
            lemma_skip_skip(cur@, 1, sp as int);
        }
        let (item, tail) = split_from_trimmed(cur, 1 + sp, "\n");
        proof {
            assert(grammar::ulist_item(cur@) == Some((item@, tail@)));
            grammar::lemma_ulist_item_len(cur@);
        }
        let ghost pre = items.deep_view();
        items.push(item);
        proof {
            assert(items.deep_view() =~= pre.push(item@));
            assert(pre.push(item@) + grammar::ulist_items(tail@).0 =~= pre + (seq![item@]
                + grammar::ulist_items(tail@).0));
        }
        cur = tail;
    }
    let n2 = char_len(cur);
    proof {
        assert(grammar::ulist_items(cur@).0 =~= Seq::<Seq<char>>::empty());
        assert(grammar::ulist_items(input@).0 =~= items.deep_view());
        assert(items.deep_view().len() == items@.len());
    }
    if items.len() > 0 {
        if n2 > 0 {
            let c = cur.get_char(0);
            if c == '\n' {
                let tail2 = cur.substring_char(1, n2);
                proof {
                    assert(tail2@ =~= cur@.skip(1));
                }
                return Some((items, tail2));
            }
        }
    }
    None
}

/// Parse a numbered list: one or more `N. item` lines, closed by one more
/// newline.  The numeric value of each marker only signals an item; it is
/// never used.
pub fn parse_numbered_list<'a>(input: &'a str) -> (r: Option<(Vec<String>, &'a str)>)
    ensures
        match r {
            Some(v) => grammar::nlist(input@) == Some((v.0.deep_view(), v.1@)),
            None => grammar::nlist(input@) is None,
        },
{
    let mut cur: &str = input;
    let mut items: Vec<String> = Vec::new();
    proof {
        assert(items.deep_view() + grammar::nlist_items(cur@).0 =~= grammar::nlist_items(cur@).0);
    }
    loop
        invariant
            grammar::nlist_items(input@).0 == items.deep_view() + grammar::nlist_items(cur@).0,
            grammar::nlist_items(input@).1 == grammar::nlist_items(cur@).1,
        ensures
            grammar::nlist_items(input@).0 == items.deep_view() + grammar::nlist_items(cur@).0,
            grammar::nlist_items(input@).1 == grammar::nlist_items(cur@).1,
            grammar::nlist_item(cur@) is None,
        decreases cur@.len(),
    {
        let n = char_len(cur);
        let d = run_in(cur, 0, n, CharClass::Digit);
        proof {
            assert(cur@.subrange(0, n as int) =~= cur@);
        }
        if d < 1 {
            break;
        }
        let mut pos = d;
        if pos < n {
            let c = cur.get_char(pos);
            if c == '.' {
                pos = pos + 1;
            }
        }
        proof {
            if pos == d + 1 {
                lemma_skip_skip(cur@, d as int, 1);
            }
        }
        let sp = run_in(cur, pos, n, CharClass::Space);
        proof {
            assert(cur@.subrange(pos as int, n as int) =~= cur@.skip(pos as int));
        }
        if sp < 1 {
            break;
        }
        proof {
            lemma_skip_skip(cur@, pos as int, sp as int);
        }
        let (item, tail) = split_from_trimmed(cur, pos + sp, "\n");
        proof {
            assert(grammar::nlist_item(cur@) == Some((item@, tail@)));
            grammar::lemma_nlist_item_len(cur@);
        }
        let ghost pre = items.deep_view();
        items.push(item);
        proof {
            assert(items.deep_view() =~= pre.push(item@));
            assert(pre.push(item@) + grammar::nlist_items(tail@).0 =~= pre + (seq![item@]
                + grammar::nlist_items(tail@).0));
        }
        cur = tail;
    }
    let n2 = char_len(cur);
    proof {
        assert(grammar::nlist_items(cur@).0 =~= Seq::<Seq<char>>::empty());
        assert(grammar::nlist_items(input@).0 =~= items.deep_view());
        assert(items.deep_view().len() == items@.len());
    }
    if items.len() > 0 {
        if n2 > 0 {
            let c = cur.get_char(0);
            if c == '\n' {
                let tail2 = cur.substring_char(1, n2);
                proof {
                    assert(tail2@ =~= cur@.skip(1));
                }
                return Some((items, tail2));
            }
        }
    }
    None
}

/// Parse the scale group inside an image parameter block, starting at
/// character position `pos` of `s`.  On success the percentage and the
/// absolute position after the group (trailing spaces consumed).
fn parse_scale_group(s: &str, pos: usize) -> (r: Option<(u32, usize)>)
    requires
        pos <= s@.len(),
    ensures
        match r {
            Some(v) => v.1 <= s@.len() && grammar::scale_group(s@.skip(pos as int)) == Some(
                (v.0, s@.skip(v.1 as int)),
            ),
            None => grammar::scale_group(s@.skip(pos as int)) is None,
        },
{
    let n = char_len(s);
    let a = run_in(s, pos, n, CharClass::Space);
    proof {
        assert(s@.subrange(pos as int, n as int) =~= s@.skip(pos as int));
        lemma_skip_skip(s@, pos as int, a as int);
    }
    let p2 = pos + a;
    if !match_at(s, p2, "scale:") {
        proof {
            crate::scan::lemma_pat_at_skip(s@, p2 as int, 0, "scale:"@);
        }
        return None;
    }
    proof {
        crate::scan::lemma_pat_at_skip(s@, p2 as int, 0, "scale:"@);
    }
    let p3 = p2 + "scale:".unicode_len();
    proof {
        lemma_skip_skip(s@, p2 as int, "scale:"@.len() as int);
    }
    let b = run_in(s, p3, n, CharClass::Space);
    proof {
        assert(s@.subrange(p3 as int, n as int) =~= s@.skip(p3 as int));
        lemma_skip_skip(s@, p3 as int, b as int);
    }
    let p4 = p3 + b;
    let d = run_in(s, p4, n, CharClass::Digit);
    proof {
        assert(s@.subrange(p4 as int, n as int) =~= s@.skip(p4 as int));
    }
    if d < 1 {
        return None;
    }
    proof {
        crate::scan::lemma_run_len(CharClass::Digit, s@.subrange(p4 as int, n as int));
        assert forall|j: int| p4 <= j < p4 + d implies in_class(
            CharClass::Digit,
            #[trigger] s@[j],
        ) by {
            assert(s@.subrange(p4 as int, n as int)[j - p4] == s@[j]);
        }
        crate::scan::lemma_skip_take(s@, p4 as int, d as int);
        lemma_skip_skip(s@, p4 as int, d as int);
    }
    let v = digits_to_u32_sat(s, p4, p4 + d);
    let p5 = p4 + d;
    if p5 >= n {
        return None;
    }
    if s.get_char(p5) != '%' {
        return None;
    }
    let p6 = p5 + 1;
    proof {
        lemma_skip_skip(s@, p5 as int, 1);
    }
    let c2 = run_in(s, p6, n, CharClass::Space);
    proof {
        assert(s@.subrange(p6 as int, n as int) =~= s@.skip(p6 as int));
        lemma_skip_skip(s@, p6 as int, c2 as int);
    }
    let p7 = p6 + c2;
    if p7 >= n {
        return None;
    }
    if s.get_char(p7) != ';' {
        return None;
    }
    let p8 = p7 + 1;
    proof {
        lemma_skip_skip(s@, p7 as int, 1);
    }
    let e = run_in(s, p8, n, CharClass::Space);
    proof {
        assert(s@.subrange(p8 as int, n as int) =~= s@.skip(p8 as int));
        lemma_skip_skip(s@, p8 as int, e as int);
    }
    Some((v, p8 + e))
}

/// Parse an image parameter block `{ scale: N%; }`.  A missing `{` leaves
/// the input unchanged; a missing `}` yields default parameters but keeps
/// what was consumed, as the grammar says.
pub fn parse_image_params<'a>(input: &'a str) -> (r: (ImageParams, &'a str))
    ensures
        grammar::image_params(input@).0 == r.0.scale,
        grammar::image_params(input@).1 == r.1@,
{
    let n = char_len(input);
    let sp = run_in(input, 0, n, CharClass::Space);
    proof {
        assert(input@.subrange(0, n as int) =~= input@);
    }
    if sp >= n {
        return (ImageParams { scale: None }, input);
    }
    if input.get_char(sp) != '{' {
        return (ImageParams { scale: None }, input);
    }
    let p1 = sp + 1;
    proof {
        lemma_skip_skip(input@, sp as int, 1);
    }
    match parse_scale_group(input, p1) {
        Some((v, p2)) => {
            let sp2 = run_in(input, p2, n, CharClass::Space);
            proof {
                assert(input@.subrange(p2 as int, n as int) =~= input@.skip(p2 as int));
                lemma_skip_skip(input@, p2 as int, sp2 as int);
            }
            let p3 = p2 + sp2;
            if p3 < n {
                if input.get_char(p3) == '}' {
                    let tail = input.substring_char(p3 + 1, n);
                    proof {
                        lemma_skip_skip(input@, p3 as int, 1);
                        assert(tail@ =~= input@.skip(p3 + 1));
                    }
                    return (ImageParams { scale: Some(v) }, tail);
                }
            }
            let tail = input.substring_char(p2, n);
            proof {
                assert(tail@ =~= input@.skip(p2 as int));
            }
            (ImageParams { scale: None }, tail)
        },
        None => {
            let sp1 = run_in(input, p1, n, CharClass::Space);
            proof {
                assert(input@.subrange(p1 as int, n as int) =~= input@.skip(p1 as int));
                lemma_skip_skip(input@, p1 as int, sp1 as int);
            }
            let p3 = p1 + sp1;
            if p3 < n {
                if input.get_char(p3) == '}' {
                    let tail = input.substring_char(p3 + 1, n);
                    proof {
                        lemma_skip_skip(input@, p3 as int, 1);
                        assert(tail@ =~= input@.skip(p3 + 1));
                    }
                    return (ImageParams { scale: None }, tail);
                }
            }
            let tail = input.substring_char(p1, n);
            proof {
                assert(tail@ =~= input@.skip(p1 as int));
            }
            (ImageParams { scale: None }, tail)
        },
    }
}

/// Parse an image: `![alt](path)` with an optional parameter block, then
/// everything up to the next blank line dropped.
pub fn parse_image<'a>(input: &'a str) -> (r: Option<(Image, &'a str)>)
    ensures
        match r {
            Some(v) => grammar::image(input@) == Some((v.0@, v.1@)),
            None => grammar::image(input@) is None,
        },
{
    let n = char_len(input);
    if n == 0 {
        return None;
    }
    if input.get_char(0) != '!' {
        return None;
    }
    if n < 2 {
        return None;
    }
    proof {
        lemma_skip_skip(input@, 1, 1);
    }
    if input.get_char(1) != '[' {
        return None;
    }
    let al = run_in(input, 2, n, CharClass::Not(']'));
    proof {
        assert(input@.subrange(2, n as int) =~= input@.skip(2));
        lemma_skip_skip(input@, 2, al as int);
    }
    let p3 = 2 + al;
    if p3 >= n {
        return None;
    }
    if input.get_char(p3) != ']' {
        return None;
    }
    let p4 = p3 + 1;
    proof {
        lemma_skip_skip(input@, p3 as int, 1);
    }
    if p4 >= n {
        return None;
    }
    if input.get_char(p4) != '(' {
        return None;
    }
    let p5 = p4 + 1;
    proof {
        lemma_skip_skip(input@, p4 as int, 1);
    }
    let pl = run_in(input, p5, n, CharClass::Not(')'));
    proof {
        assert(input@.subrange(p5 as int, n as int) =~= input@.skip(p5 as int));
        lemma_skip_skip(input@, p5 as int, pl as int);
    }
    if pl < 1 {
        return None;
    }
    let p6 = p5 + pl;
    if p6 >= n {
        return None;
    }
    if input.get_char(p6) != ')' {
        return None;
    }
    let p7 = p6 + 1;
    proof {
        lemma_skip_skip(input@, p6 as int, 1);
        crate::scan::lemma_skip_take(input@, 2, al as int);
        crate::scan::lemma_skip_take(input@, p5 as int, pl as int);
    }
    let alt_text = crate::scan::extract(input, 2, p3);
    let path = crate::scan::extract(input, p5, p6);
    let s7 = input.substring_char(p7, n);
    proof {
        assert(s7@ =~= input@.skip(p7 as int));
    }
    let (ip, s8) = parse_image_params(s7);
    proof {
        assert(s8@.skip(0) =~= s8@);
    }
    let tail = split_from(s8, 0, "\n\n").1;
    Some((Image { path, alt_text, params: ip }, tail))
}

/// Parse a font-style token at the head of `t`; on success the style and
/// the number of characters consumed.
fn parse_font_style(t: &str) -> (r: Option<(CodeFontStyle, usize)>)
    ensures
        match r {
            Some(v) => v.1 <= t@.len() && grammar::font_style_tok(t@) == Some(
                (v.0, t@.skip(v.1 as int)),
            ),
            None => grammar::font_style_tok(t@) is None,
        },
{
    if match_at(t, 0, "regular") {
        Some((CodeFontStyle::Regular, "regular".unicode_len()))
    } else if match_at(t, 0, "bold") {
        Some((CodeFontStyle::Bold, "bold".unicode_len()))
    } else if match_at(t, 0, "semi_bold") {
        Some((CodeFontStyle::SemiBold, "semi_bold".unicode_len()))
    } else if match_at(t, 0, "light") {
        Some((CodeFontStyle::Light, "light".unicode_len()))
    } else if match_at(t, 0, "semi_light") {
        Some((CodeFontStyle::SemiLight, "semi_light".unicode_len()))
    } else if match_at(t, 0, "extra_light") {
        Some((CodeFontStyle::ExtraLight, "extra_light".unicode_len()))
    } else {
        None
    }
}

/// Parse one `key: value` parameter pair at the head of `s`, updating the
/// accumulated parameters; on success the number of characters consumed.
fn parse_param_entry(s: &str, acc: &mut CodeBlockParams) -> (r: Option<usize>)
    ensures
        match r {
            Some(end) => end <= s@.len() && grammar::param_entry(s@, old(acc)@) == Some(
                (final(acc)@, s@.skip(end as int)),
            ),
            None => grammar::param_entry(s@, old(acc)@) is None && *final(acc) == *old(acc),
        },
{
    let n = char_len(s);
    if match_at(s, 0, "font_size:") {
        let p1 = "font_size:".unicode_len();
        let sp = run_in(s, p1, n, CharClass::Space);
        proof {
            assert(s@.subrange(p1 as int, n as int) =~= s@.skip(p1 as int));
        }
        if sp < 1 {
            return None;
        }
        let p2 = p1 + sp;
        proof {
            lemma_skip_skip(s@, p1 as int, sp as int);
        }
        let d = run_in(s, p2, n, CharClass::Digit);
        proof {
            assert(s@.subrange(p2 as int, n as int) =~= s@.skip(p2 as int));
        }
        if d < 1 {
            return None;
        }
        proof {
            crate::scan::lemma_run_len(CharClass::Digit, s@.subrange(p2 as int, n as int));
            assert forall|j: int| p2 <= j < p2 + d implies in_class(
                CharClass::Digit,
                #[trigger] s@[j],
            ) by {
                assert(s@.subrange(p2 as int, n as int)[j - p2] == s@[j]);
            }
            crate::scan::lemma_skip_take(s@, p2 as int, d as int);
            lemma_skip_skip(s@, p2 as int, d as int);
        }
        match digits_to_u16(s, p2, p2 + d) {
            None => None,
            Some(v) => {
                acc.font_size = Some(v);
                Some(p2 + d)
            },
        }
    } else if match_at(s, 0, "font_style:") {
        let p1 = "font_style:".unicode_len();
        let sp = run_in(s, p1, n, CharClass::Space);
        proof {
            assert(s@.subrange(p1 as int, n as int) =~= s@.skip(p1 as int));
        }
        if sp < 1 {
            return None;
        }
        let p2 = p1 + sp;
        proof {
            lemma_skip_skip(s@, p1 as int, sp as int);
        }
        let t = s.substring_char(p2, n);
        proof {
            assert(t@ =~= s@.skip(p2 as int));
        }
        match parse_font_style(t) {
            None => None,
            Some((style, rel)) => {
                proof {
                    lemma_skip_skip(s@, p2 as int, rel as int);
                    assert(t@.skip(rel as int) =~= s@.skip(p2 + rel));
                }
                acc.font_style = Some(style);
                Some(p2 + rel)
            },
        }
    } else if match_at(s, 0, "block_terminator:") {
        let p1 = "block_terminator:".unicode_len();
        let sp = run_in(s, p1, n, CharClass::Space);
        proof {
            assert(s@.subrange(p1 as int, n as int) =~= s@.skip(p1 as int));
        }
        if sp < 1 {
            return None;
        }
        let p2 = p1 + sp;
        proof {
            lemma_skip_skip(s@, p1 as int, sp as int);
        }
        match crate::scan::find_at(s, p2, "\n") {
            None => None,
            Some(i) => {
                proof {
                    crate::scan::lemma_skip_take(s@, p2 as int, i - p2);
                    lemma_skip_skip(s@, p2 as int, i - p2);
                }
                let term = crate::scan::extract(s, p2, i);
                acc.block_terminator = Some(term);
                Some(i)
            },
        }
    } else {
        None
    }
}

/// Parse the parameter lines in front of a code fence.  A line that does
/// not start with `|` ends the parameters cleanly; a malformed `|` line
/// fails.
pub fn parse_code_block_params<'a>(input: &'a str) -> (r: Option<(CodeBlockParams, &'a str)>)
    ensures
        match r {
            Some(v) => grammar::params(input@, crate::model::ParamsModel::empty()) == Some(
                (v.0@, v.1@),
            ),
            None => grammar::params(input@, crate::model::ParamsModel::empty()) is None,
        },
{
    let mut cur: &str = input;
    let mut acc = CodeBlockParams::default();
    loop
        invariant
            grammar::params(input@, crate::model::ParamsModel::empty()) == grammar::params(
                cur@,
                acc@,
            ),
        ensures
            grammar::params(input@, crate::model::ParamsModel::empty()) == grammar::params(
                cur@,
                acc@,
            ),
            !(cur@.len() > 0 && cur@[0] == '|'),
        decreases cur@.len(),
    {
        let n = char_len(cur);
        if n == 0 {
            break;
        }
        let c0 = cur.get_char(0);
        if c0 != '|' {
            break;
        }
        let sp = run_in(cur, 1, n, CharClass::Space);
        proof {
            assert(cur@.subrange(1, n as int) =~= cur@.skip(1));
        }
        if sp < 1 {
            return None;
        }
        let e = 1 + sp;
        proof {
            lemma_skip_skip(cur@, 1, sp as int);
        }
        let s2 = cur.substring_char(e, n);
        proof {
            assert(s2@ =~= cur@.skip(e as int));
        }
        let ghost acc0 = acc@;
        match parse_param_entry(s2, &mut acc) {
            None => {
                return None;
            },
            Some(rel_end) => {
                let entry_end = e + rel_end;
                proof {
                    lemma_skip_skip(cur@, e as int, rel_end as int);
                    assert(s2@.skip(rel_end as int) =~= cur@.skip(entry_end as int));
                    crate::scan::lemma_split_at_pat_len(
                        cur@.skip(entry_end as int),
                        "\n"@,
                    );
                }
                let nxt = split_from(cur, entry_end, "\n").1;
                cur = nxt;
            },
        }
    }
    Some((acc, cur))
}

/// Parse a code block: parameter lines, the opening fence and language
/// token, the raw code up to the closing fence — custom terminators let the
/// code itself contain a literal fence — and the rest of the node dropped.
pub fn parse_code_block<'a>(input: &'a str) -> (r: Option<
    ((Language, CodeBlockParams, String), &'a str),
>)
    ensures
        match r {
            Some(v) => grammar::code_block(input@) == Some(((v.0.0, v.0.1@, v.0.2@), v.1@)),
            None => grammar::code_block(input@) is None,
        },
{
    let pr = parse_code_block_params(input);
    let (cb_params, s1) = match pr {
        Some(v) => v,
        None => {
            return None;
        },
    };
    if !match_at(s1, 0, "```") {
        return None;
    }
    let flen3 = "```".unicode_len();
    let (langtok, s3) = split_from(s1, flen3, "\n");
    let lang = match Language::from_token(langtok.as_str()) {
        Some(l) => l,
        None => Language::PlainText,
    };
    let mut fence = String::from_str("\n```");
    match cb_params.block_terminator {
        Some(ref t) => fence.append(t.as_str()),
        None => {},
    }
    let n3 = char_len(s3);
    proof {
        assert(s3@.skip(0) =~= s3@);
        reveal_strlit("\n```");
    }
    match crate::scan::find_at(s3, 0, fence.as_str()) {
        Some(i) => {
            let code = crate::scan::extract(s3, 0, i + 1);
            proof {
                assert(code@ =~= s3@.take(i + 1));
            }
            let flen = fence.as_str().unicode_len();
            let tail = split_from(s3, i + flen, "\n\n").1;
            Some(((lang, cb_params, code), tail))
        },
        None => {
            let code = crate::scan::extract(s3, 0, n3);
            let tail = s3.substring_char(n3, n3);
            proof {
                assert(code@ =~= s3@);
                reveal_strlit("\n\n");
                assert(tail@ =~= Seq::<char>::empty());
            }
            Some(((lang, cb_params, code), tail))
        },
    }
}

/// Classify the next chunk of input as one slide node, by ordered choice:
/// header, unnumbered list, numbered list, code block, image, comment, and
/// finally plain text.  The first match wins; the fallback makes this
/// total.
pub fn parse_slide_node<'a>(input: &'a str) -> (r: (SlideNode, &'a str))
    ensures
        grammar::node(input@).0 == r.0@,
        grammar::node(input@).1 == r.1@,
{
    if let Some((hs, text, tail)) = parse_header(input) {
        return (SlideNode::Header(hs, text), tail);
    }
    if let Some((items, tail)) = parse_unnumbered_list(input) {
        return (SlideNode::UnnumberedList(items), tail);
    }
    if let Some((items, tail)) = parse_numbered_list(input) {
        return (SlideNode::NumberedList(items), tail);
    }
    if let Some(((lang, cb_params, code), tail)) = parse_code_block(input) {
        return (SlideNode::CodeBlock(lang, cb_params, code), tail);
    }
    if let Some((img, tail)) = parse_image(input) {
        return (SlideNode::Image(img), tail);
    }
    if let Some((text, tail)) = parse_comment(input) {
        return (SlideNode::Comment(text), tail);
    }
    let (text, tail) = parse_text_section(input);
    (SlideNode::Text(text), tail)
}

/// Parse a slide divider: the literal `---`, optionally followed at once
/// by an image, which the assembler may turn into a background.
pub fn parse_slide_divider<'a>(input: &'a str) -> (r: Option<(Option<Image>, &'a str)>)
    ensures
        match r {
            Some(v) => grammar::divider(input@) == Some((image_opt_view(v.0), v.1@)),
            None => grammar::divider(input@) is None,
        },
{
    if !match_at(input, 0, "---") {
        return None;
    }
    let dlen = "---".unicode_len();
    let n = char_len(input);
    let s1 = input.substring_char(dlen, n);
    proof {
        assert(s1@ =~= input@.skip("---"@.len() as int));
    }
    match parse_image(s1) {
        Some((img, tail)) => Some((Some(img), tail)),
        None => Some((None, s1)),
    }
}

/// Assemble one slide.  A divider seen before any node sets this slide's
/// background and parsing goes on within the same slide; a divider seen
/// after at least one node ends the slide and is left in the input for the
/// next slide.  Exhausted input ends the slide as accumulated.
pub fn parse_slide<'a>(input: &'a str) -> (r: (Slide, &'a str))
    ensures
        grammar::slide(input@).0 == r.0@,
        grammar::slide(input@).1 == r.1@,
{
    let mut cur: &str = input;
    let mut nodes: Vec<SlideNode> = Vec::new();
    let mut background: Option<Image> = None;
    proof {
        assert(nodes.deep_view() =~= Seq::<crate::model::NodeModel>::empty());
    }
    loop
        invariant
            grammar::slide_rec(input@, Seq::empty(), None) == grammar::slide_rec(
                cur@,
                nodes.deep_view(),
                image_opt_view(background),
            ),
        decreases cur@.len(),
    {
        let n = char_len(cur);
        if n == 0 {
            return (Slide { nodes, background }, cur);
        }
        match parse_slide_divider(cur) {
            Some((bg, tail)) => {
                if nodes.len() == 0 {
                    proof {
                        grammar::lemma_divider_len(cur@);
                        assert(nodes.deep_view().len() == 0);
                    }
                    background = bg;
                    cur = tail;
                } else {
                    proof {
                        assert(nodes.deep_view().len() == nodes@.len());
                    }
                    return (Slide { nodes, background }, cur);
                }
            },
            None => {
                let (node, tail) = parse_slide_node(cur);
                proof {
                    grammar::lemma_node_len(cur@);
                }
                let ghost pre = nodes.deep_view();
                nodes.push(node);
                proof {
                    assert(nodes.deep_view() =~= pre.push(node@));
                }
                cur = tail;
            },
        }
    }
}

/// Assemble the whole deck: slides parsed one after the other until the
/// input is exhausted.  Every slide strictly advances the cursor, so the
/// loop terminates on any input.
pub fn parse_slides(input: &str) -> (r: Vec<Slide>)
    ensures
        r.deep_view() == grammar::slides(input@),
{
    let mut cur: &str = input;
    let mut out: Vec<Slide> = Vec::new();
    proof {
        assert(out.deep_view() + grammar::slides(cur@) =~= grammar::slides(cur@));
    }
    loop
        invariant
            grammar::slides(input@) == out.deep_view() + grammar::slides(cur@),
        decreases cur@.len(),
    {
        let n = char_len(cur);
        if n == 0 {
            proof {
                assert(out.deep_view() + grammar::slides(cur@) =~= out.deep_view());
            }
            return out;
        }
        let (sl, tail) = parse_slide(cur);
        proof {
            grammar::lemma_slide_len(cur@);
        }
        let ghost pre = out.deep_view();
        out.push(sl);
        proof {
            assert(out.deep_view() =~= pre.push(sl@));
            assert(pre.push(sl@) + grammar::slides(tail@) =~= pre + (seq![sl@] + grammar::slides(
                tail@,
            )));
        }
        cur = tail;
    }
}

/// Build a whole presentation from the document text, with title and
/// source location supplied by the caller.  The plain-text fallback makes
/// the grammar total, so every document yields a deck.
pub fn parse_presentation(title: String, path: String, input: &str) -> (r: Presentation)
    ensures
        r@ == grammar::presentation(title@, path@, input@),
{
    let slides = parse_slides(input);
    Presentation { title, path, slides }
}

} // verus!
