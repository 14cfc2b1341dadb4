//! General laws of the parser, stated and proved once and for all inputs:
//! determinism of a whole parse, the round trip of a header line, the
//! effect of a custom code-block terminator, and the language fallback.

use vstd::prelude::*;

use crate::grammar;
use crate::model::HeaderSize;
use crate::model::Language;
use crate::model::NodeModel;
use crate::model::PresentationModel;
use crate::model::SlideModel;
use crate::scan::CharClass;
use crate::scan::in_class;
use crate::scan::lemma_first_occur_is;
use crate::scan::lemma_run_len;
use crate::scan::lemma_run_len_is;
use crate::scan::lemma_trim_start_skip_ws;
use crate::scan::pat_at;
use crate::scan::run_len;
use crate::scan::trim;

verus! {

/// Parsing is pure: the same document text with the same title and source
/// location always yields the same deck model.  Together with the contract
/// of `parse_presentation` this says that parsing a document twice, with
/// no mutation in between, yields presentations equal field by field.
pub proof fn lemma_parse_deterministic(
    a: PresentationModel,
    b: PresentationModel,
    title: Seq<char>,
    path: Seq<char>,
    doc: Seq<char>,
)
    requires
        a == grammar::presentation(title, path, doc),
        b == grammar::presentation(title, path, doc),
    ensures
        a == b,
{
}

/// An unrecognized language token never fails a code block: every token
/// other than the known ones resolves to plain text.
pub proof fn lemma_unknown_language_fallback(tok: Seq<char>)
    requires
        tok != "rust"@,
    ensures
        grammar::language_of(tok) == Language::PlainText,
{
}

/// A sequence of `n` header marks.
pub open spec fn hash_marks(n: int) -> Seq<char> {
    Seq::new(n as nat, |i: int| '#')
}

/// Header round trip: for every level from one to five, a document made of
/// that many `#` marks, a space, one line of text and a blank line parses
/// to a single slide holding a single header of that level whose text is
/// the trimmed line, with no background.
pub proof fn lemma_header_round_trip(n: int, text: Seq<char>)
    requires
        1 <= n <= 5,
        forall|i: int| 0 <= i < text.len() ==> text[i] != '\n',
    ensures
        grammar::slides(hash_marks(n) + " "@ + text + "\n\n"@) =~= seq![
            SlideModel {
                nodes: seq![
                    NodeModel::Header(HeaderSize::spec_from_level(n), trim(text)),
                ],
                background: None,
            },
        ],
{
    reveal_strlit(" ");
    reveal_strlit("\n\n");
    reveal_strlit("---");
    let doc = hash_marks(n) + " "@ + text + "\n\n"@;
    let tlen = text.len() as int;
    assert(doc.len() == n + 3 + tlen);
    assert forall|i: int| 0 <= i < n implies doc[i] == '#' by {}
    assert(doc[n] == ' ');
    assert forall|i: int| 0 <= i < tlen implies doc[n + 1 + i] == text[i] by {}
    assert(doc[n + 1 + tlen] == '\n');
    assert(doc[n + 2 + tlen] == '\n');

    // The run of header marks stops exactly at the space.
    assert forall|i: int| 0 <= i < n implies in_class(CharClass::Hash, #[trigger] doc[i]) by {}
    lemma_run_len_is(CharClass::Hash, doc, n);

    // The space run after the marks is the separator plus the text's own
    // leading spaces.
    let s1 = doc.skip(n);
    let k = run_len(CharClass::Space, text);
    lemma_run_len(CharClass::Space, text);
    assert forall|i: int| 0 <= i < 1 + k implies in_class(CharClass::Space, #[trigger] s1[i]) by {
        assert(s1[i] == doc[n + i]);
        if i > 0 {
            assert(doc[n + i] == text[i - 1]);
        }
    }
    assert(1 + k < s1.len());
    assert(!in_class(CharClass::Space, s1[1 + k])) by {
        assert(s1[1 + k] == doc[n + 1 + k]);
        if k < tlen {
            assert(doc[n + 1 + k] == text[k]);
        } else {
            assert(doc[n + 1 + k] == '\n');
        }
    }
    lemma_run_len_is(CharClass::Space, s1, 1 + k);

    // The captured span runs to the closing blank line.
    let rest = s1.skip(1 + k);
    assert(rest =~= text.skip(k) + "\n\n"@);
    assert(pat_at(rest, tlen - k, "\n\n"@)) by {
        assert(rest.subrange(tlen - k, tlen - k + 2) =~= "\n\n"@);
    }
    assert forall|j: int| 0 <= j < tlen - k implies !pat_at(rest, j, "\n\n"@) by {
        if pat_at(rest, j, "\n\n"@) {
            assert(rest.subrange(j, j + 2)[0] == rest[j]);
            assert(rest[j] == text.skip(k)[j]);
            assert(text.skip(k)[j] == text[k + j]);
        }
    }
    lemma_first_occur_is(rest, "\n\n"@, tlen - k);
    assert(rest.take(tlen - k) =~= text.skip(k));
    assert(rest.skip(tlen - k + 2) =~= Seq::<char>::empty());

    // Trimming the captured span is trimming the whole line.
    assert forall|i: int| 0 <= i < k implies in_class(
        CharClass::Whitespace,
        #[trigger] text[i],
    ) by {
        lemma_run_len(CharClass::Space, text);
    }
    lemma_trim_start_skip_ws(text, k);
    assert(trim(text.skip(k)) == trim(text));

    let hdr = NodeModel::Header(HeaderSize::spec_from_level(n), trim(text));
    assert(grammar::header(doc) == Some(
        (HeaderSize::spec_from_level(n), trim(text), Seq::<char>::empty()),
    ));
    assert(grammar::node(doc) == (hdr, Seq::<char>::empty()));

    // The document does not start with a divider, so the slide assembler
    // takes the node and then ends on empty input.
    assert(!pat_at(doc, 0, "---"@)) by {
        if pat_at(doc, 0, "---"@) {
            assert(doc.subrange(0, 3)[0] == doc[0]);
        }
    }
    let nodes1 = Seq::<NodeModel>::empty().push(hdr);
    assert(grammar::slide_rec(Seq::<char>::empty(), nodes1, None) == (
        SlideModel { nodes: nodes1, background: None },
        Seq::<char>::empty(),
    ));
    assert(grammar::slide(doc) == (
        SlideModel { nodes: nodes1, background: None },
        Seq::<char>::empty(),
    ));
    assert(grammar::slides(Seq::<char>::empty()) =~= Seq::<SlideModel>::empty());
    assert(grammar::slides(doc) =~= seq![SlideModel { nodes: nodes1, background: None }]);
    assert(nodes1 =~= seq![hdr]);
}

/// List items are independent of the separator whitespace: however many
/// spaces or tabs stand between the bullet and the content, the captured
/// item is the trimmed content alone, and the rest of the input is
/// untouched.
pub proof fn lemma_list_item_ignores_separator(
    spaces: Seq<char>,
    content: Seq<char>,
    rest: Seq<char>,
)
    requires
        spaces.len() >= 1,
        forall|i: int| 0 <= i < spaces.len() ==> in_class(CharClass::Space, #[trigger] spaces[i]),
        content.len() > 0 ==> !in_class(CharClass::Space, content[0]),
        forall|i: int| 0 <= i < content.len() ==> content[i] != '\n',
    ensures
        grammar::ulist_item(seq!['-'] + spaces + content + "\n"@ + rest) == Some(
            (trim(content), rest),
        ),
{
    reveal_strlit("\n");
    let doc = seq!['-'] + spaces + content + "\n"@ + rest;
    assert(doc[0] == '-');
    let s1 = doc.skip(1);
    assert(s1 =~= spaces + content + "\n"@ + rest);
    let m = spaces.len() as int;
    let cl = content.len() as int;
    assert forall|i: int| 0 <= i < m implies in_class(CharClass::Space, #[trigger] s1[i]) by {
        assert(s1[i] == spaces[i]);
    }
    assert(!in_class(CharClass::Space, s1[m])) by {
        if cl > 0 {
            assert(s1[m] == content[0]);
        } else {
            assert(s1[m] == '\n');
        }
    }
    lemma_run_len_is(CharClass::Space, s1, m);
    let s2 = s1.skip(m);
    assert(s2 =~= content + "\n"@ + rest);
    assert(pat_at(s2, cl, "\n"@)) by {
        assert(s2.subrange(cl, cl + 1) =~= "\n"@);
    }
    assert forall|j: int| 0 <= j < cl implies !pat_at(s2, j, "\n"@) by {
        if pat_at(s2, j, "\n"@) {
            assert(s2.subrange(j, j + 1)[0] == s2[j]);
            assert(s2[j] == content[j]);
        }
    }
    lemma_first_occur_is(s2, "\n"@, cl);
    assert(s2.take(cl) =~= content);
    assert(s2.skip(cl + 1) =~= rest);
}

/// The value of a numbered-list marker is cosmetic: whatever digits make
/// up the marker, with or without the dot, the captured item is the
/// trimmed content alone.
pub proof fn lemma_numbered_marker_is_cosmetic(
    digits: Seq<char>,
    dot: bool,
    spaces: Seq<char>,
    content: Seq<char>,
    rest: Seq<char>,
)
    requires
        digits.len() >= 1,
        forall|i: int| 0 <= i < digits.len() ==> in_class(CharClass::Digit, #[trigger] digits[i]),
        spaces.len() >= 1,
        forall|i: int| 0 <= i < spaces.len() ==> in_class(CharClass::Space, #[trigger] spaces[i]),
        content.len() > 0 ==> !in_class(CharClass::Space, content[0]),
        forall|i: int| 0 <= i < content.len() ==> content[i] != '\n',
    ensures
        grammar::nlist_item(
            digits + (if dot {
                seq!['.']
            } else {
                Seq::<char>::empty()
            }) + spaces + content + "\n"@ + rest,
        ) == Some((trim(content), rest)),
{
    reveal_strlit("\n");
    let marker_dot: Seq<char> = if dot {
        seq!['.']
    } else {
        Seq::<char>::empty()
    };
    let doc = digits + marker_dot + spaces + content + "\n"@ + rest;
    let dl = digits.len() as int;
    let m = spaces.len() as int;
    let cl = content.len() as int;
    assert forall|i: int| 0 <= i < dl implies in_class(CharClass::Digit, #[trigger] doc[i]) by {
        assert(doc[i] == digits[i]);
    }
    assert(!in_class(CharClass::Digit, doc[dl])) by {
        if dot {
            assert(doc[dl] == '.');
        } else {
            assert(doc[dl] == spaces[0]);
        }
    }
    lemma_run_len_is(CharClass::Digit, doc, dl);
    let s1 = doc.skip(dl);
    assert(s1 =~= marker_dot + spaces + content + "\n"@ + rest);
    let s2 = if s1.len() > 0 && s1[0] == '.' {
        s1.skip(1)
    } else {
        s1
    };
    assert(s2 =~= spaces + content + "\n"@ + rest) by {
        if dot {
            assert(s1[0] == '.');
        } else {
            assert(s1[0] == spaces[0]);
        }
    }
    assert forall|i: int| 0 <= i < m implies in_class(CharClass::Space, #[trigger] s2[i]) by {
        assert(s2[i] == spaces[i]);
    }
    assert(!in_class(CharClass::Space, s2[m])) by {
        if cl > 0 {
            assert(s2[m] == content[0]);
        } else {
            assert(s2[m] == '\n');
        }
    }
    lemma_run_len_is(CharClass::Space, s2, m);
    let s3 = s2.skip(m);
    assert(s3 =~= content + "\n"@ + rest);
    assert(pat_at(s3, cl, "\n"@)) by {
        assert(s3.subrange(cl, cl + 1) =~= "\n"@);
    }
    assert forall|j: int| 0 <= j < cl implies !pat_at(s3, j, "\n"@) by {
        if pat_at(s3, j, "\n"@) {
            assert(s3.subrange(j, j + 1)[0] == s3[j]);
            assert(s3[j] == content[j]);
        }
    }
    lemma_first_occur_is(s3, "\n"@, cl);
    assert(s3.take(cl) =~= content);
    assert(s3.skip(cl + 1) =~= rest);
}

/// A divider at the head of a slide with no nodes yet is a background
/// declaration: the slide goes on within the same input, carrying the
/// divider's image as its background.
pub proof fn lemma_divider_sets_background(s: Seq<char>)
    requires
        s.len() > 0,
        grammar::divider(s) is Some,
    ensures
        grammar::divider(s) matches Some(d) ==> grammar::slide(s) == grammar::slide_rec(
            d.1,
            Seq::empty(),
            d.0,
        ),
{
}

/// A divider met after at least one node ends the slide: the accumulated
/// slide is returned as it stands and the divider is left in the input for
/// the next slide.
pub proof fn lemma_divider_ends_slide(
    s: Seq<char>,
    nodes: Seq<NodeModel>,
    background: Option<crate::model::ImageModel>,
)
    requires
        s.len() > 0,
        nodes.len() > 0,
        grammar::divider(s) is Some,
    ensures
        grammar::slide_rec(s, nodes, background) == (
            SlideModel { nodes, background },
            s,
        ),
{
}

/// The parameter line of a custom terminator: one `block_terminator`
/// line sets exactly that field, and the parameters end at the fence that
/// follows.
proof fn lemma_terminator_param_line(term: Seq<char>, p_tail: Seq<char>)
    requires
        term.len() > 0,
        !in_class(CharClass::Space, term[0]),
        forall|i: int| 0 <= i < term.len() ==> term[i] != '\n',
        p_tail.len() > 0,
        p_tail[0] == '`',
    ensures
        grammar::params(
            "| block_terminator: "@ + term + "\n"@ + p_tail,
            crate::model::ParamsModel::empty(),
        ) == Some(
            (
                crate::model::ParamsModel {
                    font_size: None,
                    font_style: None,
                    block_terminator: Some(term),
                },
                p_tail,
            ),
        ),
{
    reveal_strlit("| block_terminator: ");
    reveal_strlit("block_terminator:");
    reveal_strlit("font_size:");
    reveal_strlit("font_style:");
    reveal_strlit("\n");
    reveal_strlit(" ");
    let doc = "| block_terminator: "@ + term + "\n"@ + p_tail;

    // The parameter line: `|`, one space, the key, one space.
    assert(doc[0] == '|');
    let s1 = doc.skip(1);
    assert(s1[0] == ' ');
    assert(s1[1] == 'b');
    lemma_run_len_is(CharClass::Space, s1, 1);
    let s2 = s1.skip(1);
    assert(s2 =~= "block_terminator:"@ + (" "@ + term + "\n"@ + p_tail)) by {
        assert(s2 =~= doc.skip(2));
    }
    assert(pat_at(s2, 0, "block_terminator:"@)) by {
        assert(s2.subrange(0, 17) =~= "block_terminator:"@);
    }
    assert(!pat_at(s2, 0, "font_size:"@)) by {
        if pat_at(s2, 0, "font_size:"@) {
            assert(s2.subrange(0, 10)[0] == s2[0]);
        }
    }
    assert(!pat_at(s2, 0, "font_style:"@)) by {
        if pat_at(s2, 0, "font_style:"@) {
            assert(s2.subrange(0, 11)[0] == s2[0]);
        }
    }
    let s3 = s2.skip(17);
    assert(s3 =~= " "@ + term + "\n"@ + p_tail);
    assert(s3[0] == ' ');
    assert(!in_class(CharClass::Space, s3[1])) by {
        assert(s3[1] == term[0]);
    }
    lemma_run_len_is(CharClass::Space, s3, 1);
    let s4 = s3.skip(1);
    assert(s4 =~= term + "\n"@ + p_tail);

    // The terminator value runs to the end of the line.
    let tl = term.len() as int;
    assert(pat_at(s4, tl, "\n"@)) by {
        assert(s4.subrange(tl, tl + 1) =~= "\n"@);
    }
    assert forall|j: int| 0 <= j < tl implies !pat_at(s4, j, "\n"@) by {
        if pat_at(s4, j, "\n"@) {
            assert(s4.subrange(j, j + 1)[0] == s4[j]);
            assert(s4[j] == term[j]);
        }
    }
    lemma_first_occur_is(s4, "\n"@, tl);
    assert(s4.take(tl) =~= term);
    let acc1 = crate::model::ParamsModel {
        font_size: None,
        font_style: None,
        block_terminator: Some(term),
    };
    assert(grammar::param_entry(s2, crate::model::ParamsModel::empty()) == Some(
        (acc1, s4.skip(tl)),
    ));

    // The rest of the parameter line is just its newline.
    let s5 = s4.skip(tl);
    assert(s5 =~= "\n"@ + p_tail);
    assert(pat_at(s5, 0, "\n"@)) by {
        assert(s5.subrange(0, 1) =~= "\n"@);
    }
    lemma_first_occur_is(s5, "\n"@, 0);
    assert(s5.skip(1) =~= p_tail);

    // No further parameter line: the fence begins.
    assert(grammar::params(p_tail, acc1) == Some((acc1, p_tail)));
}

/// The fence part of a code block, for any declared terminator: the
/// language token runs to its newline, and the code runs to the first
/// occurrence of the closing fence, which by assumption stands right after
/// the body.
proof fn lemma_fence_capture(
    bt: Option<Seq<char>>,
    lang: Seq<char>,
    body: Seq<char>,
    rest: Seq<char>,
)
    requires
        forall|i: int| 0 <= i < lang.len() ==> lang[i] != '\n',
        forall|k: int|
            0 <= k < body.len() ==> !pat_at(
                body + grammar::code_fence_pat(bt) + rest,
                k,
                grammar::code_fence_pat(bt),
            ),
    ensures
        ({
            let fence = grammar::code_fence_pat(bt);
            let pt = "```"@ + lang + "\n"@ + body + fence + rest;
            &&& pat_at(pt, 0, "```"@)
            &&& crate::scan::split_at_pat(pt.skip("```"@.len() as int), "\n"@) == (
                lang,
                body + fence + rest,
            )
            &&& crate::scan::first_occur(body + fence + rest, fence) == Some(body.len() as int)
            &&& (body + fence + rest).take(body.len() as int + 1) == body + "\n"@
            &&& (body + fence + rest).skip(body.len() as int + fence.len() as int) == rest
        }),
{
    reveal_strlit("\n");
    reveal_strlit("```");
    reveal_strlit("\n```");
    let fence = grammar::code_fence_pat(bt);
    assert(fence[0] == '\n') by {
        match bt {
            Some(t) => {
                assert(fence =~= "\n```"@ + t);
            },
            None => {},
        }
    }
    let pt = "```"@ + lang + "\n"@ + body + fence + rest;
    assert(pat_at(pt, 0, "```"@)) by {
        assert(pt.subrange(0, 3) =~= "```"@);
    }
    let s6 = pt.skip(3);
    assert(s6 =~= lang + ("\n"@ + body + fence + rest));
    let ll = lang.len() as int;
    assert(pat_at(s6, ll, "\n"@)) by {
        assert(s6.subrange(ll, ll + 1) =~= "\n"@);
    }
    assert forall|j: int| 0 <= j < ll implies !pat_at(s6, j, "\n"@) by {
        if pat_at(s6, j, "\n"@) {
            assert(s6.subrange(j, j + 1)[0] == s6[j]);
            assert(s6[j] == lang[j]);
        }
    }
    lemma_first_occur_is(s6, "\n"@, ll);
    assert(s6.take(ll) =~= lang);
    assert(s6.skip(ll + 1) =~= body + fence + rest);

    let s7 = body + fence + rest;
    let bl = body.len() as int;
    assert(pat_at(s7, bl, fence)) by {
        assert(s7.subrange(bl, bl + fence.len()) =~= fence);
    }
    lemma_first_occur_is(s7, fence, bl);
    assert(s7.take(bl + 1) =~= body + "\n"@);
    assert(s7.skip(bl + fence.len()) =~= rest);
}

/// Custom code-block terminator: a block that declares `block_terminator`
/// is captured in full up to the first occurrence of the custom fence, so
/// its body may contain a literal plain fence.  The captured code is the
/// body with its final newline; the declared terminator and the language
/// come through exactly.
pub proof fn lemma_custom_terminator(
    term: Seq<char>,
    lang: Seq<char>,
    body: Seq<char>,
    rest: Seq<char>,
)
    requires
        term.len() > 0,
        !in_class(CharClass::Space, term[0]),
        forall|i: int| 0 <= i < term.len() ==> term[i] != '\n',
        forall|i: int| 0 <= i < lang.len() ==> lang[i] != '\n',
        forall|k: int|
            0 <= k < body.len() ==> !pat_at(
                body + "\n```"@ + term + rest,
                k,
                "\n```"@ + term,
            ),
    ensures
        ({
            let doc = "| block_terminator: "@ + term + "\n"@ + "```"@ + lang + "\n"@ + body
                + "\n```"@ + term + rest;
            grammar::code_block(doc) == Some(
                (
                    (
                        grammar::language_of(lang),
                        crate::model::ParamsModel {
                            font_size: None,
                            font_style: None,
                            block_terminator: Some(term),
                        },
                        body + "\n"@,
                    ),
                    crate::scan::split_at_pat(rest, "\n\n"@).1,
                ),
            )
        }),
{
    reveal_strlit("```");
    reveal_strlit("\n```");
    let acc1 = crate::model::ParamsModel {
        font_size: None,
        font_style: None,
        block_terminator: Some(term),
    };
    let fence = grammar::code_fence_pat(Some(term));
    assert(fence =~= "\n```"@ + term);
    let pt = "```"@ + lang + "\n"@ + body + fence + rest;
    let doc = "| block_terminator: "@ + term + "\n"@ + "```"@ + lang + "\n"@ + body + "\n```"@
        + term + rest;
    assert(pt[0] == '`');
    lemma_terminator_param_line(term, pt);
    assert(doc =~= "| block_terminator: "@ + term + "\n"@ + pt);
    assert(grammar::params(doc, crate::model::ParamsModel::empty()) == Some((acc1, pt)));
    assert forall|k: int| 0 <= k < body.len() implies !pat_at(body + fence + rest, k, fence) by {
        assert(body + fence + rest =~= body + "\n```"@ + term + rest);
    }
    lemma_fence_capture(Some(term), lang, body, rest);
}

/// Without a custom terminator the same body is truncated: when the body
/// itself contains a plain fence, the captured code stops before the end
/// of the body instead of spanning all of it.
pub proof fn lemma_default_terminator_truncates(lang: Seq<char>, body: Seq<char>, rest: Seq<char>)
    requires
        forall|i: int| 0 <= i < lang.len() ==> lang[i] != '\n',
        exists|k: int| 0 <= k && k + 4 <= body.len() && #[trigger] body.subrange(k, k + 4)
            == "\n```"@,
    ensures
        ({
            let doc = "```"@ + lang + "\n"@ + body + "\n```"@ + rest;
            &&& grammar::code_block(doc) matches Some(r)
            &&& (grammar::code_block(doc) matches Some(r) ==> r.0.2.len() < body.len() + 1)
        }),
{
    reveal_strlit("\n");
    reveal_strlit("```");
    reveal_strlit("\n```");
    let doc = "```"@ + lang + "\n"@ + body + "\n```"@ + rest;
    assert(doc[0] == '`');
    assert(grammar::params(doc, crate::model::ParamsModel::empty()) == Some(
        (crate::model::ParamsModel::empty(), doc),
    ));
    assert(pat_at(doc, 0, "```"@)) by {
        assert(doc.subrange(0, 3) =~= "```"@);
    }
    let s2 = doc.skip(3);
    assert(s2 =~= lang + ("\n"@ + body + "\n```"@ + rest));
    let ll = lang.len() as int;
    assert(pat_at(s2, ll, "\n"@)) by {
        assert(s2.subrange(ll, ll + 1) =~= "\n"@);
    }
    assert forall|j: int| 0 <= j < ll implies !pat_at(s2, j, "\n"@) by {
        if pat_at(s2, j, "\n"@) {
            assert(s2.subrange(j, j + 1)[0] == s2[j]);
            assert(s2[j] == lang[j]);
        }
    }
    lemma_first_occur_is(s2, "\n"@, ll);
    let s3 = s2.skip(ll + 1);
    assert(s3 =~= body + "\n```"@ + rest);
    let bl = body.len() as int;
    let k = choose|k: int|
        0 <= k && k + 4 <= bl && #[trigger] body.subrange(k, k + 4) == "\n```"@;
    assert(pat_at(s3, k, "\n```"@)) by {
        assert(s3.subrange(k, k + 4) =~= body.subrange(k, k + 4));
    }
    crate::scan::lemma_first_occur(s3, "\n```"@);
    match crate::scan::first_occur(s3, "\n```"@) {
        Some(i) => {
            assert(i <= k) by {
                if i > k {
                    assert(!pat_at(s3, k, "\n```"@));
                }
            }
        },
        None => {
            assert(!pat_at(s3, k, "\n```"@));
        },
    }
}

} // verus!
