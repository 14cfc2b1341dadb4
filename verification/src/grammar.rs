//! The markup grammar, stated as total spec functions over sequences of
//! characters.  Each production consumes a prefix of the input and returns
//! the parsed value together with the remaining tail; a failed production
//! returns `None` and the dispatcher tries the next alternative, ending in
//! the plain-text fallback which never fails.
//!
//! These functions are the reference semantics of the parser: every
//! executable parsing function is proved to return exactly what the
//! corresponding production says.

use vstd::prelude::*;

use crate::model::CodeFontStyle;
use crate::model::HeaderSize;
use crate::model::ImageModel;
use crate::model::Language;
use crate::model::NodeModel;
use crate::model::ParamsModel;
use crate::model::SlideModel;
use crate::model::PresentationModel;
use crate::scan::CharClass;
use crate::scan::first_occur;
use crate::scan::in_class;
use crate::scan::lemma_first_occur;
use crate::scan::lemma_run_len;
use crate::scan::lemma_split_at_pat_len;
use crate::scan::pat_at;
use crate::scan::run_len;
use crate::scan::split_at_pat;
use crate::scan::trim;

verus! {

/// The numeric value of a digit character.
pub open spec fn digit_of(c: char) -> int {
    c as u32 - '0' as u32
}

/// The numeric value of a sequence of decimal digits, most significant
/// first.  The empty sequence has value zero.
pub open spec fn digits_val(s: Seq<char>) -> int
    decreases s.len(),
{
    if s.len() == 0 {
        0
    } else {
        digits_val(s.drop_last()) * 10 + digit_of(s.last())
    }
}

/// An integer clamped into `u32`: values over `u32::MAX` saturate.
pub open spec fn sat_u32(v: int) -> u32 {
    if v > u32::MAX {
        u32::MAX
    } else if v < 0 {
        0u32
    } else {
        v as u32
    }
}

/// A digit sequence has a nonnegative value.
pub proof fn lemma_digits_val_nonneg(s: Seq<char>)
    requires
        forall|j: int| 0 <= j < s.len() ==> in_class(CharClass::Digit, #[trigger] s[j]),
    ensures
        digits_val(s) >= 0,
    decreases s.len(),
{
    if s.len() > 0 {
        lemma_digits_val_nonneg(s.drop_last());
    }
}

/// Extending a digit sequence by one digit multiplies its value by ten and
/// adds the digit.
pub proof fn lemma_digits_val_step(s: Seq<char>, i: int)
    requires
        0 <= i < s.len(),
    ensures
        digits_val(s.take(i + 1)) == digits_val(s.take(i)) * 10 + digit_of(s[i]),
{
    assert(s.take(i + 1).drop_last() =~= s.take(i));
    assert(s.take(i + 1).last() == s[i]);
}

/// The value of a digit sequence only grows as more digits are taken.
pub proof fn lemma_digits_val_monotone(s: Seq<char>, i: int)
    requires
        0 <= i <= s.len(),
        forall|j: int| 0 <= j < s.len() ==> in_class(CharClass::Digit, #[trigger] s[j]),
    ensures
        digits_val(s.take(i)) <= digits_val(s),
    decreases s.len() - i,
{
    if i == s.len() {
        assert(s.take(i) =~= s);
    } else {
        lemma_digits_val_step(s, i);
        lemma_digits_val_nonneg(s.take(i));
        assert(forall|j: int|
            0 <= j < s.take(i).len() ==> in_class(CharClass::Digit, #[trigger] s.take(i)[j]));
        lemma_digits_val_monotone(s, i + 1);
    }
}

/// The language named by a code-fence token; every unrecognized token
/// degrades to plain text.
pub open spec fn language_of(tok: Seq<char>) -> Language {
    match Language::spec_from_token(tok) {
        Some(lang) => lang,
        None => Language::PlainText,
    }
}

/// Header: one to five `#` characters (a longer run fails: the sixth `#`
/// is no space), at least one space or tab, then text captured up to the
/// next blank line and trimmed.
pub open spec fn header(s: Seq<char>) -> Option<(HeaderSize, Seq<char>, Seq<char>)> {
    let hashes = run_len(CharClass::Hash, s);
    let h = if hashes > 5 {
        5
    } else {
        hashes
    };
    if h < 1 {
        None
    } else {
        let s1 = s.skip(h);
        let sp = run_len(CharClass::Space, s1);
        if sp < 1 {
            None
        } else {
            let split = split_at_pat(s1.skip(sp), "\n\n"@);
            Some((HeaderSize::spec_from_level(h), trim(split.0), split.1))
        }
    }
}

/// One unnumbered list item: `-`, at least one space or tab, then the rest
/// of the line, trimmed; the newline is consumed.
pub open spec fn ulist_item(s: Seq<char>) -> Option<(Seq<char>, Seq<char>)> {
    if s.len() > 0 && s[0] == '-' {
        let s1 = s.skip(1);
        let sp = run_len(CharClass::Space, s1);
        if sp < 1 {
            None
        } else {
            let split = split_at_pat(s1.skip(sp), "\n"@);
            Some((trim(split.0), split.1))
        }
    } else {
        None
    }
}

/// A successful list item consumes at least the marker.
pub proof fn lemma_ulist_item_len(s: Seq<char>)
    ensures
        ulist_item(s) matches Some(r) ==> r.1.len() < s.len(),
{
    if s.len() > 0 && s[0] == '-' {
        let s1 = s.skip(1);
        let sp = run_len(CharClass::Space, s1);
        lemma_run_len(CharClass::Space, s1);
        if sp >= 1 {
            lemma_split_at_pat_len(s1.skip(sp), "\n"@);
        }
    }
}

/// As many unnumbered list items as the input offers, in order.
pub open spec fn ulist_items(s: Seq<char>) -> (Seq<Seq<char>>, Seq<char>)
    decreases s.len(),
{
    match ulist_item(s) {
        Some(r) => {
            proof {
                lemma_ulist_item_len(s);
            }
            let rest = ulist_items(r.1);
            (seq![r.0] + rest.0, rest.1)
        },
        None => (Seq::empty(), s),
    }
}

/// Collecting list items never grows the input.
pub proof fn lemma_ulist_items_len(s: Seq<char>)
    ensures
        ulist_items(s).1.len() <= s.len(),
    decreases s.len(),
{
    match ulist_item(s) {
        Some(r) => {
            lemma_ulist_item_len(s);
            lemma_ulist_items_len(r.1);
        },
        None => {},
    }
}

/// Unnumbered list: one or more items followed by one more newline, which
/// closes the list.
pub open spec fn ulist(s: Seq<char>) -> Option<(Seq<Seq<char>>, Seq<char>)> {
    let r = ulist_items(s);
    if r.0.len() > 0 && r.1.len() > 0 && r.1[0] == '\n' {
        Some((r.0, r.1.skip(1)))
    } else {
        None
    }
}

/// A successful list consumes at least the closing newline.
pub proof fn lemma_ulist_len(s: Seq<char>)
    ensures
        ulist(s) matches Some(r) ==> r.1.len() < s.len(),
{
    lemma_ulist_items_len(s);
}

/// One numbered list item: one or more digits, an optional `.`, at least
/// one space or tab, then the rest of the line, trimmed; the newline is
/// consumed.  The numeric value of the marker is never used.
pub open spec fn nlist_item(s: Seq<char>) -> Option<(Seq<char>, Seq<char>)> {
    let d = run_len(CharClass::Digit, s);
    if d < 1 {
        None
    } else {
        let s1 = s.skip(d);
        let s2 = if s1.len() > 0 && s1[0] == '.' {
            s1.skip(1)
        } else {
            s1
        };
        let sp = run_len(CharClass::Space, s2);
        if sp < 1 {
            None
        } else {
            let split = split_at_pat(s2.skip(sp), "\n"@);
            Some((trim(split.0), split.1))
        }
    }
}

/// A successful numbered item consumes at least the marker.
pub proof fn lemma_nlist_item_len(s: Seq<char>)
    ensures
        nlist_item(s) matches Some(r) ==> r.1.len() < s.len(),
{
    let d = run_len(CharClass::Digit, s);
    lemma_run_len(CharClass::Digit, s);
    if d >= 1 {
        let s1 = s.skip(d);
        let s2 = if s1.len() > 0 && s1[0] == '.' {
            s1.skip(1)
        } else {
            s1
        };
        let sp = run_len(CharClass::Space, s2);
        lemma_run_len(CharClass::Space, s2);
        if sp >= 1 {
            lemma_split_at_pat_len(s2.skip(sp), "\n"@);
        }
    }
}

/// As many numbered list items as the input offers, in order.
pub open spec fn nlist_items(s: Seq<char>) -> (Seq<Seq<char>>, Seq<char>)
    decreases s.len(),
{
    match nlist_item(s) {
        Some(r) => {
            proof {
                lemma_nlist_item_len(s);
            }
            let rest = nlist_items(r.1);
            (seq![r.0] + rest.0, rest.1)
        },
        None => (Seq::empty(), s),
    }
}

/// Collecting numbered items never grows the input.
pub proof fn lemma_nlist_items_len(s: Seq<char>)
    ensures
        nlist_items(s).1.len() <= s.len(),
    decreases s.len(),
{
    match nlist_item(s) {
        Some(r) => {
            lemma_nlist_item_len(s);
            lemma_nlist_items_len(r.1);
        },
        None => {},
    }
}

/// Numbered list: one or more items followed by one more newline.
pub open spec fn nlist(s: Seq<char>) -> Option<(Seq<Seq<char>>, Seq<char>)> {
    let r = nlist_items(s);
    if r.0.len() > 0 && r.1.len() > 0 && r.1[0] == '\n' {
        Some((r.0, r.1.skip(1)))
    } else {
        None
    }
}

/// A successful numbered list consumes at least the closing newline.
pub proof fn lemma_nlist_len(s: Seq<char>)
    ensures
        nlist(s) matches Some(r) ==> r.1.len() < s.len(),
{
    lemma_nlist_items_len(s);
}

/// One recognized font-style token, tried in a fixed order.
pub open spec fn font_style_tok(s: Seq<char>) -> Option<(CodeFontStyle, Seq<char>)> {
    if pat_at(s, 0, "regular"@) {
        Some((CodeFontStyle::Regular, s.skip("regular"@.len() as int)))
    } else if pat_at(s, 0, "bold"@) {
        Some((CodeFontStyle::Bold, s.skip("bold"@.len() as int)))
    } else if pat_at(s, 0, "semi_bold"@) {
        Some((CodeFontStyle::SemiBold, s.skip("semi_bold"@.len() as int)))
    } else if pat_at(s, 0, "light"@) {
        Some((CodeFontStyle::Light, s.skip("light"@.len() as int)))
    } else if pat_at(s, 0, "semi_light"@) {
        Some((CodeFontStyle::SemiLight, s.skip("semi_light"@.len() as int)))
    } else if pat_at(s, 0, "extra_light"@) {
        Some((CodeFontStyle::ExtraLight, s.skip("extra_light"@.len() as int)))
    } else {
        None
    }
}

/// One `key: value` pair after the `| ` prefix of a parameter line.
/// `font_size` takes an unsigned integer that must fit in sixteen bits,
/// `font_style` one of the six named styles, and `block_terminator` free
/// text up to the end of the line (the newline is not consumed here).
/// An unrecognized key, or a malformed value, fails the code-block parser.
pub open spec fn param_entry(s: Seq<char>, acc: ParamsModel) -> Option<(ParamsModel, Seq<char>)> {
    if pat_at(s, 0, "font_size:"@) {
        let s1 = s.skip("font_size:"@.len() as int);
        let sp = run_len(CharClass::Space, s1);
        if sp < 1 {
            None
        } else {
            let s2 = s1.skip(sp);
            let d = run_len(CharClass::Digit, s2);
            if d < 1 {
                None
            } else {
                let v = digits_val(s2.take(d));
                if v > u16::MAX {
                    None
                } else {
                    Some(
                        (
                            ParamsModel {
                                font_size: Some(v as u16),
                                font_style: acc.font_style,
                                block_terminator: acc.block_terminator,
                            },
                            s2.skip(d),
                        ),
                    )
                }
            }
        }
    } else if pat_at(s, 0, "font_style:"@) {
        let s1 = s.skip("font_style:"@.len() as int);
        let sp = run_len(CharClass::Space, s1);
        if sp < 1 {
            None
        } else {
            match font_style_tok(s1.skip(sp)) {
                Some(r) => Some(
                    (
                        ParamsModel {
                            font_size: acc.font_size,
                            font_style: Some(r.0),
                            block_terminator: acc.block_terminator,
                        },
                        r.1,
                    ),
                ),
                None => None,
            }
        }
    } else if pat_at(s, 0, "block_terminator:"@) {
        let s1 = s.skip("block_terminator:"@.len() as int);
        let sp = run_len(CharClass::Space, s1);
        if sp < 1 {
            None
        } else {
            let s2 = s1.skip(sp);
            match first_occur(s2, "\n"@) {
                Some(i) => Some(
                    (
                        ParamsModel {
                            font_size: acc.font_size,
                            font_style: acc.font_style,
                            block_terminator: Some(s2.take(i)),
                        },
                        s2.skip(i),
                    ),
                ),
                None => None,
            }
        }
    } else {
        None
    }
}

/// A parameter entry never grows the input.
pub proof fn lemma_param_entry_len(s: Seq<char>, acc: ParamsModel)
    ensures
        param_entry(s, acc) matches Some(r) ==> r.1.len() <= s.len(),
{
    if pat_at(s, 0, "font_size:"@) {
        let s1 = s.skip("font_size:"@.len() as int);
        lemma_run_len(CharClass::Space, s1);
        let s2 = s1.skip(run_len(CharClass::Space, s1));
        lemma_run_len(CharClass::Digit, s2);
    } else if pat_at(s, 0, "font_style:"@) {
        let s1 = s.skip("font_style:"@.len() as int);
        lemma_run_len(CharClass::Space, s1);
    } else if pat_at(s, 0, "block_terminator:"@) {
        let s1 = s.skip("block_terminator:"@.len() as int);
        lemma_run_len(CharClass::Space, s1);
        let s2 = s1.skip(run_len(CharClass::Space, s1));
        lemma_first_occur(s2, "\n"@);
    }
}

/// Zero or more parameter lines, each `|`, at least one space or tab, one
/// `key: value` pair, then the rest of the line dropped.  A line that does
/// not start with `|` ends the parameters cleanly; a `|` line with a bad
/// pair fails the whole code-block parser.
pub open spec fn params(s: Seq<char>, acc: ParamsModel) -> Option<(ParamsModel, Seq<char>)>
    decreases s.len(),
{
    if !(s.len() > 0 && s[0] == '|') {
        Some((acc, s))
    } else {
        let s1 = s.skip(1);
        let sp = run_len(CharClass::Space, s1);
        if sp < 1 {
            None
        } else {
            match param_entry(s1.skip(sp), acc) {
                Some(r) => {
                    let split = split_at_pat(r.1, "\n"@);
                    proof {
                        lemma_run_len(CharClass::Space, s1);
                        lemma_param_entry_len(s1.skip(sp), acc);
                        lemma_split_at_pat_len(r.1, "\n"@);
                    }
                    params(split.1, r.0)
                },
                None => None,
            }
        }
    }
}

/// Reading parameter lines never grows the input.
pub proof fn lemma_params_len(s: Seq<char>, acc: ParamsModel)
    ensures
        params(s, acc) matches Some(r) ==> r.1.len() <= s.len(),
    decreases s.len(),
{
    if s.len() > 0 && s[0] == '|' {
        let s1 = s.skip(1);
        let sp = run_len(CharClass::Space, s1);
        lemma_run_len(CharClass::Space, s1);
        if sp >= 1 {
            match param_entry(s1.skip(sp), acc) {
                Some(r) => {
                    lemma_param_entry_len(s1.skip(sp), acc);
                    lemma_split_at_pat_len(r.1, "\n"@);
                    lemma_params_len(split_at_pat(r.1, "\n"@).1, r.0);
                },
                None => {},
            }
        }
    }
}

/// The closing fence of a code block: a newline and three backticks,
/// extended by the custom terminator when one was declared.
pub open spec fn code_fence_pat(terminator: Option<Seq<char>>) -> Seq<char> {
    match terminator {
        Some(t) => "\n```"@ + t,
        None => "\n```"@,
    }
}

/// Code block: optional parameter lines, an opening ``` fence, a language
/// token up to the end of the line (unknown tokens degrade to plain text),
/// then raw code captured up to the closing fence — which includes the
/// newline in front of the fence — and finally everything up to the next
/// blank line dropped.  An absent closing fence captures the rest of the
/// input.
pub open spec fn code_block(s: Seq<char>) -> Option<
    ((Language, ParamsModel, Seq<char>), Seq<char>),
> {
    match params(s, ParamsModel::empty()) {
        None => None,
        Some(p) => {
            let s1 = p.1;
            if !pat_at(s1, 0, "```"@) {
                None
            } else {
                let s2 = s1.skip("```"@.len() as int);
                let lsplit = split_at_pat(s2, "\n"@);
                let lang = language_of(lsplit.0);
                let s3 = lsplit.1;
                let fence = code_fence_pat(p.0.block_terminator);
                let r = match first_occur(s3, fence) {
                    Some(i) => (s3.take(i + 1), s3.skip(i + fence.len())),
                    None => (s3, Seq::<char>::empty()),
                };
                let csplit = split_at_pat(r.1, "\n\n"@);
                Some(((lang, p.0, r.0), csplit.1))
            }
        },
    }
}

/// A successful code block consumes at least the opening fence.
pub proof fn lemma_code_block_len(s: Seq<char>)
    ensures
        code_block(s) matches Some(r) ==> r.1.len() < s.len(),
{
    lemma_params_len(s, ParamsModel::empty());
    match params(s, ParamsModel::empty()) {
        None => {},
        Some(p) => {
            let s1 = p.1;
            if pat_at(s1, 0, "```"@) {
                reveal_strlit("```");
                let s2 = s1.skip("```"@.len() as int);
                lemma_split_at_pat_len(s2, "\n"@);
                let s3 = split_at_pat(s2, "\n"@).1;
                let fence = code_fence_pat(p.0.block_terminator);
                lemma_first_occur(s3, fence);
                match first_occur(s3, fence) {
                    Some(i) => {
                        lemma_split_at_pat_len(s3.skip(i + fence.len()), "\n\n"@);
                    },
                    None => {
                        lemma_split_at_pat_len(Seq::<char>::empty(), "\n\n"@);
                    },
                }
            }
        },
    }
}

/// Scale group inside an image parameter block: `scale:`, optional spaces,
/// one or more digits (the percentage, saturating into `u32`), `%`,
/// optional spaces, a mandatory `;`, and trailing spaces consumed.
pub open spec fn scale_group(s: Seq<char>) -> Option<(u32, Seq<char>)> {
    let a = run_len(CharClass::Space, s);
    let s2 = s.skip(a);
    if !pat_at(s2, 0, "scale:"@) {
        None
    } else {
        let s3 = s2.skip("scale:"@.len() as int);
        let b = run_len(CharClass::Space, s3);
        let s4 = s3.skip(b);
        let d = run_len(CharClass::Digit, s4);
        if d < 1 {
            None
        } else {
            let v = sat_u32(digits_val(s4.take(d)));
            let s5 = s4.skip(d);
            if !(s5.len() > 0 && s5[0] == '%') {
                None
            } else {
                let s6 = s5.skip(1);
                let c = run_len(CharClass::Space, s6);
                let s7 = s6.skip(c);
                if !(s7.len() > 0 && s7[0] == ';') {
                    None
                } else {
                    let s8 = s7.skip(1);
                    let e = run_len(CharClass::Space, s8);
                    Some((v, s8.skip(e)))
                }
            }
        }
    }
}

/// A scale group never grows the input.
pub proof fn lemma_scale_group_len(s: Seq<char>)
    ensures
        scale_group(s) matches Some(r) ==> r.1.len() <= s.len(),
{
    let a = run_len(CharClass::Space, s);
    lemma_run_len(CharClass::Space, s);
    let s2 = s.skip(a);
    if pat_at(s2, 0, "scale:"@) {
        let s3 = s2.skip("scale:"@.len() as int);
        let b = run_len(CharClass::Space, s3);
        lemma_run_len(CharClass::Space, s3);
        let s4 = s3.skip(b);
        let d = run_len(CharClass::Digit, s4);
        lemma_run_len(CharClass::Digit, s4);
        if d >= 1 {
            let s5 = s4.skip(d);
            if s5.len() > 0 && s5[0] == '%' {
                let s6 = s5.skip(1);
                let c = run_len(CharClass::Space, s6);
                lemma_run_len(CharClass::Space, s6);
                let s7 = s6.skip(c);
                if s7.len() > 0 && s7[0] == ';' {
                    let s8 = s7.skip(1);
                    lemma_run_len(CharClass::Space, s8);
                }
            }
        }
    }
}

/// Image parameter block: optional spaces and `{`; inside, an optional
/// scale group; then optional spaces and `}`.  A missing `{` leaves the
/// input unchanged with default parameters; a missing `}` keeps whatever
/// was consumed so far but yields default parameters.
pub open spec fn image_params(s: Seq<char>) -> (Option<u32>, Seq<char>) {
    let sp = run_len(CharClass::Space, s);
    let sb = s.skip(sp);
    if !(sb.len() > 0 && sb[0] == '{') {
        (None, s)
    } else {
        let s1 = sb.skip(1);
        match scale_group(s1) {
            Some(r) => {
                let sp2 = run_len(CharClass::Space, r.1);
                let sc = r.1.skip(sp2);
                if sc.len() > 0 && sc[0] == '}' {
                    (Some(r.0), sc.skip(1))
                } else {
                    (None, r.1)
                }
            },
            None => {
                let sp1 = run_len(CharClass::Space, s1);
                let sc = s1.skip(sp1);
                if sc.len() > 0 && sc[0] == '}' {
                    (None, sc.skip(1))
                } else {
                    (None, s1)
                }
            },
        }
    }
}

/// An image parameter block never grows the input.
pub proof fn lemma_image_params_len(s: Seq<char>)
    ensures
        image_params(s).1.len() <= s.len(),
{
    let sp = run_len(CharClass::Space, s);
    lemma_run_len(CharClass::Space, s);
    let sb = s.skip(sp);
    if sb.len() > 0 && sb[0] == '{' {
        let s1 = sb.skip(1);
        lemma_scale_group_len(s1);
        match scale_group(s1) {
            Some(r) => {
                lemma_run_len(CharClass::Space, r.1);
            },
            None => {
                lemma_run_len(CharClass::Space, s1);
            },
        }
    }
}

/// Image: `!`, `[` optional alt text `]`, `(` nonempty path `)`, an
/// optional parameter block, then everything up to the next blank line
/// dropped.
pub open spec fn image(s: Seq<char>) -> Option<(ImageModel, Seq<char>)> {
    if !(s.len() > 0 && s[0] == '!') {
        None
    } else {
        let s1 = s.skip(1);
        if !(s1.len() > 0 && s1[0] == '[') {
            None
        } else {
            let s2 = s1.skip(1);
            let al = run_len(CharClass::Not(']'), s2);
            let s3 = s2.skip(al);
            if !(s3.len() > 0 && s3[0] == ']') {
                None
            } else {
                let s4 = s3.skip(1);
                if !(s4.len() > 0 && s4[0] == '(') {
                    None
                } else {
                    let s5 = s4.skip(1);
                    let pl = run_len(CharClass::Not(')'), s5);
                    if pl < 1 {
                        None
                    } else {
                        let s6 = s5.skip(pl);
                        if !(s6.len() > 0 && s6[0] == ')') {
                            None
                        } else {
                            let s7 = s6.skip(1);
                            let pr = image_params(s7);
                            let split = split_at_pat(pr.1, "\n\n"@);
                            Some(
                                (
                                    ImageModel {
                                        path: s5.take(pl),
                                        alt_text: s2.take(al),
                                        scale: pr.0,
                                    },
                                    split.1,
                                ),
                            )
                        }
                    }
                }
            }
        }
    }
}

/// A successful image consumes at least its leading `!`.
pub proof fn lemma_image_len(s: Seq<char>)
    ensures
        image(s) matches Some(r) ==> r.1.len() < s.len(),
{
    if s.len() > 0 && s[0] == '!' {
        let s1 = s.skip(1);
        if s1.len() > 0 && s1[0] == '[' {
            let s2 = s1.skip(1);
            let al = run_len(CharClass::Not(']'), s2);
            lemma_run_len(CharClass::Not(']'), s2);
            let s3 = s2.skip(al);
            if s3.len() > 0 && s3[0] == ']' {
                let s4 = s3.skip(1);
                if s4.len() > 0 && s4[0] == '(' {
                    let s5 = s4.skip(1);
                    let pl = run_len(CharClass::Not(')'), s5);
                    lemma_run_len(CharClass::Not(')'), s5);
                    if pl >= 1 {
                        let s6 = s5.skip(pl);
                        if s6.len() > 0 && s6[0] == ')' {
                            let s7 = s6.skip(1);
                            lemma_image_params_len(s7);
                            lemma_split_at_pat_len(image_params(s7).1, "\n\n"@);
                        }
                    }
                }
            }
        }
    }
}

/// Comment: a literal `//`, then everything up to the next blank line,
/// kept verbatim (not trimmed).
pub open spec fn comment(s: Seq<char>) -> Option<(Seq<char>, Seq<char>)> {
    if pat_at(s, 0, "//"@) {
        let split = split_at_pat(s.skip("//"@.len() as int), "\n\n"@);
        Some((split.0, split.1))
    } else {
        None
    }
}

/// A successful comment consumes at least its `//` prefix.
pub proof fn lemma_comment_len(s: Seq<char>)
    ensures
        comment(s) matches Some(r) ==> r.1.len() < s.len(),
{
    if pat_at(s, 0, "//"@) {
        reveal_strlit("//");
        lemma_split_at_pat_len(s.skip("//"@.len() as int), "\n\n"@);
    }
}

/// Plain text paragraph, the fallback that never fails: everything up to
/// the next blank line, trimmed.
pub open spec fn text_section(s: Seq<char>) -> (Seq<char>, Seq<char>) {
    let split = split_at_pat(s, "\n\n"@);
    (trim(split.0), split.1)
}

/// A text section on nonempty input consumes at least one character.
pub proof fn lemma_text_section_len(s: Seq<char>)
    ensures
        text_section(s).1.len() <= s.len(),
        s.len() > 0 ==> text_section(s).1.len() < s.len(),
{
    reveal_strlit("\n\n");
    lemma_split_at_pat_len(s, "\n\n"@);
}

/// One slide node, by ordered choice: header, unnumbered list, numbered
/// list, code block, image, comment, and finally plain text.  The first
/// production that matches wins; the fallback makes the dispatcher total.
pub open spec fn node(s: Seq<char>) -> (NodeModel, Seq<char>) {
    if let Some(r) = header(s) {
        (NodeModel::Header(r.0, r.1), r.2)
    } else if let Some(r) = ulist(s) {
        (NodeModel::UnnumberedList(r.0), r.1)
    } else if let Some(r) = nlist(s) {
        (NodeModel::NumberedList(r.0), r.1)
    } else if let Some(r) = code_block(s) {
        (NodeModel::CodeBlock(r.0.0, r.0.1, r.0.2), r.1)
    } else if let Some(r) = image(s) {
        (NodeModel::Image(r.0), r.1)
    } else if let Some(r) = comment(s) {
        (NodeModel::Comment(r.0), r.1)
    } else {
        let r = text_section(s);
        (NodeModel::Text(r.0), r.1)
    }
}

/// A header consumes at least its marker and separator.
pub proof fn lemma_header_len(s: Seq<char>)
    ensures
        header(s) matches Some(r) ==> r.2.len() < s.len(),
{
    let hashes = run_len(CharClass::Hash, s);
    lemma_run_len(CharClass::Hash, s);
    let h = if hashes > 5 {
        5
    } else {
        hashes
    };
    if 1 <= h <= s.len() {
        let s1 = s.skip(h);
        lemma_run_len(CharClass::Space, s1);
        let sp = run_len(CharClass::Space, s1);
        if sp >= 1 {
            lemma_split_at_pat_len(s1.skip(sp), "\n\n"@);
        }
    }
}

/// Dispatching one node on nonempty input strictly advances.
pub proof fn lemma_node_len(s: Seq<char>)
    requires
        s.len() > 0,
    ensures
        node(s).1.len() < s.len(),
{
    lemma_header_len(s);
    lemma_ulist_len(s);
    lemma_nlist_len(s);
    lemma_code_block_len(s);
    lemma_image_len(s);
    lemma_comment_len(s);
    lemma_text_section_len(s);
}

/// Slide divider: the literal `---`, optionally followed at once by an
/// image, which becomes a background declaration.
pub open spec fn divider(s: Seq<char>) -> Option<(Option<ImageModel>, Seq<char>)> {
    if pat_at(s, 0, "---"@) {
        let s1 = s.skip("---"@.len() as int);
        match image(s1) {
            Some(r) => Some((Some(r.0), r.1)),
            None => Some((None, s1)),
        }
    } else {
        None
    }
}

/// A divider consumes at least its three dashes.
pub proof fn lemma_divider_len(s: Seq<char>)
    ensures
        divider(s) matches Some(r) ==> r.1.len() < s.len(),
{
    if pat_at(s, 0, "---"@) {
        reveal_strlit("---");
        lemma_image_len(s.skip("---"@.len() as int));
    }
}

/// Assemble one slide.  A divider before any node of the slide is a
/// background declaration for this very slide and is consumed; a divider
/// after at least one node ends the slide and is left for the next one.
/// Exhausted input ends the slide as it stands.
pub open spec fn slide_rec(
    s: Seq<char>,
    nodes: Seq<NodeModel>,
    background: Option<ImageModel>,
) -> (SlideModel, Seq<char>)
    decreases s.len(),
{
    if s.len() == 0 {
        (SlideModel { nodes, background }, s)
    } else {
        match divider(s) {
            Some(d) => {
                if nodes.len() == 0 {
                    proof {
                        lemma_divider_len(s);
                    }
                    slide_rec(d.1, nodes, d.0)
                } else {
                    (SlideModel { nodes, background }, s)
                }
            },
            None => {
                let r = node(s);
                proof {
                    lemma_node_len(s);
                }
                slide_rec(r.1, nodes.push(r.0), background)
            },
        }
    }
}

/// One slide parsed from the head of the input.
pub open spec fn slide(s: Seq<char>) -> (SlideModel, Seq<char>) {
    slide_rec(s, Seq::empty(), None)
}

/// Assembling a slide never grows the input.
pub proof fn lemma_slide_rec_len(s: Seq<char>, nodes: Seq<NodeModel>, background: Option<ImageModel>)
    ensures
        slide_rec(s, nodes, background).1.len() <= s.len(),
    decreases s.len(),
{
    if s.len() > 0 {
        match divider(s) {
            Some(d) => {
                if nodes.len() == 0 {
                    lemma_divider_len(s);
                    lemma_slide_rec_len(d.1, nodes, d.0);
                }
            },
            None => {
                let r = node(s);
                lemma_node_len(s);
                lemma_slide_rec_len(r.1, nodes.push(r.0), background);
            },
        }
    }
}

/// A slide parsed from nonempty input strictly advances.
pub proof fn lemma_slide_len(s: Seq<char>)
    requires
        s.len() > 0,
    ensures
        slide(s).1.len() < s.len(),
{
    match divider(s) {
        Some(d) => {
            lemma_divider_len(s);
            lemma_slide_rec_len(d.1, Seq::empty(), d.0);
        },
        None => {
            let r = node(s);
            lemma_node_len(s);
            lemma_slide_rec_len(r.1, Seq::empty().push(r.0), None);
        },
    }
}

/// The whole deck: slides parsed one after the other until the input is
/// exhausted.
pub open spec fn slides(s: Seq<char>) -> Seq<SlideModel>
    decreases s.len(),
{
    if s.len() == 0 {
        Seq::empty()
    } else {
        let r = slide(s);
        proof {
            lemma_slide_len(s);
        }
        seq![r.0] + slides(r.1)
    }
}

/// A whole presentation: caller-supplied title and source location around
/// the parsed deck.
pub open spec fn presentation(title: Seq<char>, path: Seq<char>, s: Seq<char>) -> PresentationModel {
    PresentationModel { title, path, slides: slides(s) }
}

} // verus!
