//! The persisted document format for prompt sets and connection settings:
//! one tagged field per line, in a fixed order, field values escaped so
//! that reading a rendered document always gives back the value it was
//! rendered from.

use vstd::prelude::*;
use vstd::string::{StrSliceExecFns, StringExecFns};
use crate::models::{ConfigSet, ConfigSetView, Prompt, PromptSet, PromptSetView, PromptView};

verus! {

/// The number of characters before the first newline; the whole length
/// when there is none.
pub open spec fn line_len(s: Seq<char>) -> nat
    decreases s.len(),
{
    if s.len() == 0 {
        0
    } else if s[0] == '\n' {
        0
    } else {
        1 + line_len(s.drop_first())
    }
}

/// One line split off the front of a document: the text before the first
/// newline, and what follows that newline. Nothing when no newline is
/// left — a document line is always newline-terminated.
pub open spec fn split_line(s: Seq<char>) -> Option<(Seq<char>, Seq<char>)> {
    if line_len(s) < s.len() {
        Some((s.take(line_len(s) as int), s.skip(line_len(s) as int + 1)))
    } else {
        None
    }
}

/// Whether a line starts with the given field tag.
pub open spec fn tagged(line: Seq<char>, tag: Seq<char>) -> bool {
    line.len() >= tag.len() && line.take(tag.len() as int) == tag
}

/// The field value behind a tag.
pub open spec fn tag_value(line: Seq<char>, tag: Seq<char>) -> Seq<char> {
    line.skip(tag.len() as int)
}

/// A tagged, newline-terminated document line.
pub open spec fn line_for(tag: Seq<char>, value: Seq<char>) -> Seq<char> {
    tag + value + seq!['\n']
}

/// A sequence that contains no newline, so that it fits on one line.
pub open spec fn newline_free(s: Seq<char>) -> bool {
    forall|i: int| 0 <= i < s.len() ==> s[i] != '\n'
}

/// The stored form of one character: backslashes and newlines hide
/// behind a backslash, every other character stands for itself.
pub open spec fn esc_char(c: char) -> Seq<char> {
    if c == '\\' {
        seq!['\\', '\\']
    } else if c == '\n' {
        seq!['\\', 'n']
    } else {
        seq![c]
    }
}

/// The stored form of a field value, escaped so that it fits on one line
/// whatever it contains.
pub open spec fn esc(s: Seq<char>) -> Seq<char>
    decreases s.len(),
{
    if s.len() == 0 {
        Seq::empty()
    } else {
        esc_char(s[0]) + esc(s.drop_first())
    }
}

/// The value a stored field denotes; nothing when an escape is broken.
pub open spec fn unesc(s: Seq<char>) -> Option<Seq<char>>
    decreases s.len(),
{
    if s.len() == 0 {
        Some(Seq::empty())
    } else if s[0] == '\\' {
        if s.len() < 2 {
            None
        } else if s[1] == '\\' {
            match unesc(s.skip(2)) {
                None => None,
                Some(t) => Some(seq!['\\'] + t),
            }
        } else if s[1] == 'n' {
            match unesc(s.skip(2)) {
                None => None,
                Some(t) => Some(seq!['\n'] + t),
            }
        } else {
            None
        }
    } else {
        match unesc(s.drop_first()) {
            None => None,
            Some(t) => Some(seq![s[0]] + t),
        }
    }
}

/// An escaped value never holds a newline: it always fits on its line.
proof fn lemma_esc_newline_free(s: Seq<char>)
    ensures
        newline_free(esc(s)),
    decreases s.len(),
{
    if s.len() > 0 {
        lemma_esc_newline_free(s.drop_first());
        assert forall|i: int| 0 <= i < esc(s).len() implies esc(s)[i] != '\n' by {
            let head = esc_char(s[0]);
            if i >= head.len() {
                assert(esc(s)[i] == esc(s.drop_first())[i - head.len()]);
            }
        }
    }
}

/// Unescaping undoes escaping: every value comes back unchanged.
proof fn lemma_unesc_esc(s: Seq<char>)
    ensures
        unesc(esc(s)) == Some(s),
    decreases s.len(),
{
    if s.len() > 0 {
        let c = s[0];
        let rest = s.drop_first();
        lemma_unesc_esc(rest);
        let e = esc(s);
        if c == '\\' || c == '\n' {
            assert(e[0] == '\\');
            assert(e[1] == (if c == '\\' {
                '\\'
            } else {
                'n'
            }));
            assert(e.skip(2) =~= esc(rest));
            assert(seq![c] + rest =~= s);
        } else {
            assert(e[0] == c);
            assert(e.drop_first() =~= esc(rest));
            assert(seq![c] + rest =~= s);
        }
    }
}

/// The two lines of one stored prompt, field values escaped.
pub open spec fn prompt_doc(p: PromptView) -> Seq<char> {
    line_for("title:"@, esc(p.title)) + line_for("text:"@, esc(p.text))
}

/// The lines of a stored prompt list, in order.
pub open spec fn prompts_doc(ps: Seq<PromptView>) -> Seq<char>
    decreases ps.len(),
{
    if ps.len() == 0 {
        Seq::empty()
    } else {
        prompt_doc(ps[0]) + prompts_doc(ps.drop_first())
    }
}

/// The stored form of a whole prompt set: the template line followed by
/// the prompts, two lines each, every field value escaped.
pub open spec fn prompt_set_doc(s: PromptSetView) -> Seq<char> {
    line_for("prompt_template:"@, esc(s.prompt_template)) + prompts_doc(s.prompts)
}

/// The prompt list a document denotes: pairs of `title:` and `text:`
/// lines until the document ends.
pub open spec fn parse_prompts(s: Seq<char>) -> Option<Seq<PromptView>>
    decreases s.len(),
{
    if s.len() == 0 {
        Some(Seq::empty())
    } else {
        match split_line(s) {
            None => None,
            Some((l1, r1)) => if !tagged(l1, "title:"@) {
                None
            } else {
                match split_line(r1) {
                    None => None,
                    Some((l2, r2)) => if !tagged(l2, "text:"@) {
                        None
                    } else {
                        match (unesc(tag_value(l1, "title:"@)), unesc(tag_value(l2, "text:"@))) {
                            (Some(title), Some(text)) => match parse_prompts(r2) {
                                None => None,
                                Some(ps) => Some(seq![PromptView { title, text }] + ps),
                            },
                            _ => None,
                        }
                    },
                }
            },
        }
    }
}

/// The prompt set a document denotes: a `prompt_template:` line followed
/// by the prompt pairs.
pub open spec fn parse_prompt_set(s: Seq<char>) -> Option<PromptSetView> {
    match split_line(s) {
        None => None,
        Some((l, r)) => if !tagged(l, "prompt_template:"@) {
            None
        } else {
            match unesc(tag_value(l, "prompt_template:"@)) {
                None => None,
                Some(prompt_template) => match parse_prompts(r) {
                    None => None,
                    Some(ps) => Some(PromptSetView { prompt_template, prompts: ps }),
                },
            }
        },
    }
}

/// The first newline of `l + '\n' + rest` is the one written after `l`.
proof fn lemma_line_len_concat(l: Seq<char>, rest: Seq<char>)
    requires
        newline_free(l),
    ensures
        line_len(l + seq!['\n'] + rest) == l.len(),
    decreases l.len(),
{
    let s = l + seq!['\n'] + rest;
    if l.len() == 0 {
        assert(s[0] == '\n');
    } else {
        assert(s[0] == l[0]);
        assert(s[0] != '\n');
        lemma_line_len_concat(l.drop_first(), rest);
        assert(s.drop_first() =~= l.drop_first() + seq!['\n'] + rest);
    }
}

/// Splitting recovers exactly the line that was written.
proof fn lemma_split_line_concat(l: Seq<char>, rest: Seq<char>)
    requires
        newline_free(l),
    ensures
        split_line(l + seq!['\n'] + rest) == Some((l, rest)),
{
    let s = l + seq!['\n'] + rest;
    lemma_line_len_concat(l, rest);
    assert(s.take(l.len() as int) =~= l);
    assert(s.skip(l.len() as int + 1) =~= rest);
}

/// A tagged line gives back its tag and its value.
proof fn lemma_tagged_line(tag: Seq<char>, value: Seq<char>)
    ensures
        tagged(tag + value, tag),
        tag_value(tag + value, tag) == value,
{
    assert((tag + value).take(tag.len() as int) =~= tag);
    assert((tag + value).skip(tag.len() as int) =~= value);
}

/// Reading back a stored prompt list yields the list unchanged.
proof fn lemma_prompts_round_trip(ps: Seq<PromptView>)
    ensures
        parse_prompts(prompts_doc(ps)) == Some(ps),
    decreases ps.len(),
{
    reveal_strlit("title:");
    reveal_strlit("text:");
    if ps.len() == 0 {
        assert(parse_prompts(prompts_doc(ps)) == Some(Seq::<PromptView>::empty()));
        assert(Seq::<PromptView>::empty() =~= ps);
    } else {
        let p = ps[0];
        let tail = ps.drop_first();
        let l1 = "title:"@ + esc(p.title);
        let l2 = "text:"@ + esc(p.text);
        let r2 = prompts_doc(tail);
        let s = prompts_doc(ps);
        assert(newline_free("title:"@));
        assert(newline_free("text:"@));
        lemma_esc_newline_free(p.title);
        lemma_esc_newline_free(p.text);
        assert(newline_free(l1));
        assert(newline_free(l2));
        assert(s =~= l1 + seq!['\n'] + (l2 + seq!['\n'] + r2));
        lemma_split_line_concat(l1, l2 + seq!['\n'] + r2);
        lemma_tagged_line("title:"@, esc(p.title));
        lemma_split_line_concat(l2, r2);
        lemma_tagged_line("text:"@, esc(p.text));
        lemma_unesc_esc(p.title);
        lemma_unesc_esc(p.text);
        lemma_prompts_round_trip(tail);
        assert(s.len() > 0);
        assert(parse_prompts(s) == Some(
            seq![PromptView { title: p.title, text: p.text }] + tail,
        ));
        assert(PromptView { title: p.title, text: p.text } == p);
        assert(seq![p] + tail =~= ps);
    }
}

/// Round trip: reading back a stored prompt set yields a value equal to
/// the original, whatever its fields contain.
pub proof fn lemma_prompt_set_round_trip(s: PromptSetView)
    ensures
        parse_prompt_set(prompt_set_doc(s)) == Some(s),
{
    reveal_strlit("prompt_template:");
    let l = "prompt_template:"@ + esc(s.prompt_template);
    let r = prompts_doc(s.prompts);
    let d = prompt_set_doc(s);
    assert(newline_free("prompt_template:"@));
    lemma_esc_newline_free(s.prompt_template);
    assert(newline_free(l));
    assert(d =~= l + seq!['\n'] + r);
    lemma_split_line_concat(l, r);
    lemma_tagged_line("prompt_template:"@, esc(s.prompt_template));
    lemma_unesc_esc(s.prompt_template);
    lemma_prompts_round_trip(s.prompts);
    assert(PromptSetView { prompt_template: s.prompt_template, prompts: s.prompts } == s);
}

/// Render a prompt set into its document text.
pub fn render_prompt_set(s: &PromptSet) -> (out: String)
    ensures
        out@ == prompt_set_doc(s@),
{
    let mut out = String::from_str("prompt_template:");
    let template = escape_value(s.prompt_template.as_str());
    out.append(template.as_str());
    out.append("\n");
    proof {
        reveal_strlit("\n");
        assert("\n"@ =~= seq!['\n']);
        assert(out@ =~= line_for("prompt_template:"@, esc(s@.prompt_template)));
    }
    let n = s.prompts.len();
    let mut idx: usize = 0;
    while idx < n
        invariant
            idx <= n,
            n == s.prompts.len(),
            out@ == line_for("prompt_template:"@, esc(s@.prompt_template)) + prompts_doc(
                s@.prompts.take(idx as int),
            ),
        decreases n - idx,
    {
        let p = &s.prompts[idx];
        let title = escape_value(p.title.as_str());
        let text = escape_value(p.text.as_str());
        out.append("title:");
        out.append(title.as_str());
        out.append("\n");
        out.append("text:");
        out.append(text.as_str());
        out.append("\n");
        proof {
            reveal_strlit("\n");
            assert("\n"@ =~= seq!['\n']);
            assert(s@.prompts[idx as int] == p@);
            lemma_prompts_doc_snoc(s@.prompts.take(idx as int), p@);
            assert(s@.prompts.take(idx as int).push(p@) =~= s@.prompts.take(idx as int + 1));
            assert(out@ =~= line_for("prompt_template:"@, esc(s@.prompt_template)) + prompts_doc(
                s@.prompts.take(idx as int + 1),
            ));
        }
        idx = idx + 1;
    }
    proof {
        assert(s@.prompts.take(n as int) =~= s@.prompts);
    }
    out
}

/// A scan that saw no newline before position `k`, and one at `k` if `k`
/// is inside the text, has found the first line's length.
proof fn lemma_line_len_scan(s: Seq<char>, k: int)
    requires
        0 <= k <= s.len(),
        forall|j: int| 0 <= j < k ==> s[j] != '\n',
        k < s.len() ==> s[k] == '\n',
    ensures
        line_len(s) == k,
    decreases s.len(),
{
    if s.len() == 0 {
    } else if k == 0 {
    } else {
        assert(s[0] != '\n');
        assert forall|j: int| 0 <= j < k - 1 implies s.drop_first()[j] != '\n' by {
            assert(s.drop_first()[j] == s[j + 1]);
        }
        if k - 1 < s.drop_first().len() {
            assert(s.drop_first()[k - 1] == s[k]);
        }
        lemma_line_len_scan(s.drop_first(), k - 1);
    }
}

/// Find the first newline of a document, scanning from the front.
fn find_newline(s: &str) -> (r: Option<usize>)
    ensures
        match r {
            Some(i) => line_len(s@) == i && i < s@.len(),
            None => line_len(s@) == s@.len(),
        },
{
    let n = s.unicode_len();
    let mut i: usize = 0;
    while i < n
        invariant
            i <= n,
            n == s@.len(),
            forall|j: int| 0 <= j < i ==> s@[j] != '\n',
        decreases n - i,
    {
        let c = s.get_char(i);
        if c == '\n' {
            proof {
                lemma_line_len_scan(s@, i as int);
            }
            return Some(i);
        }
        i = i + 1;
    }
    proof {
        lemma_line_len_scan(s@, n as int);
    }
    None
}

/// Split the front line off a document, exactly as `split_line` does.
fn take_line<'a>(s: &'a str) -> (r: Option<(&'a str, &'a str)>)
    ensures
        match r {
            Some(p) => split_line(s@) == Some((p.0@, p.1@)),
            None => split_line(s@) is None,
        },
{
    match find_newline(s) {
        None => None,
        Some(i) => {
            let n = s.unicode_len();
            let line = s.substring_char(0, i);
            let rest = s.substring_char(i + 1, n);
            proof {
                assert(line@ =~= s@.take(line_len(s@) as int));
                assert(rest@ =~= s@.skip(line_len(s@) as int + 1));
            }
            Some((line, rest))
        },
    }
}

/// Strip a field tag off the front of a line.
fn strip_tag<'a>(line: &'a str, tag: &str) -> (r: Option<&'a str>)
    ensures
        match r {
            Some(v) => tagged(line@, tag@) && v@ == tag_value(line@, tag@),
            None => !tagged(line@, tag@),
        },
{
    let tl = tag.unicode_len();
    let ll = line.unicode_len();
    if ll < tl {
        return None;
    }
    let head = line.substring_char(0, tl);
    if String::from_str(head) == String::from_str(tag) {
        let v = line.substring_char(tl, ll);
        proof {
            assert(head@ == line@.take(tag@.len() as int));
            assert(v@ == tag_value(line@, tag@));
        }
        Some(v)
    } else {
        proof {
            assert(head@ == line@.take(tag@.len() as int));
        }
        None
    }
}

/// Escaping one more character appends its stored form.
proof fn lemma_esc_snoc(s: Seq<char>, c: char)
    ensures
        esc(s.push(c)) == esc(s) + esc_char(c),
    decreases s.len(),
{
    if s.len() == 0 {
        assert(s.push(c).drop_first() =~= Seq::<char>::empty());
        assert(s.push(c)[0] == c);
        assert(s =~= Seq::<char>::empty());
        assert(esc(Seq::<char>::empty()) == Seq::<char>::empty());
        assert(esc(s.push(c)) =~= esc(s) + esc_char(c));
    } else {
        lemma_esc_snoc(s.drop_first(), c);
        assert(s.push(c).drop_first() =~= s.drop_first().push(c));
        assert(s.push(c)[0] == s[0]);
        assert(esc(s.push(c)) =~= esc(s) + esc_char(c));
    }
}

/// Escape a field value for storage.
fn escape_value(s: &str) -> (out: String)
    ensures
        out@ == esc(s@),
{
    let n = s.unicode_len();
    let mut out = String::new();
    let mut i: usize = 0;
    while i < n
        invariant
            i <= n,
            n == s@.len(),
            out@ == esc(s@.take(i as int)),
        decreases n - i,
    {
        let c = s.get_char(i);
        if c == '\\' {
            out.append("\\\\");
            proof {
                reveal_strlit("\\\\");
                assert("\\\\"@ =~= seq!['\\', '\\']);
            }
        } else if c == '\n' {
            out.append("\\n");
            proof {
                reveal_strlit("\\n");
                assert("\\n"@ =~= seq!['\\', 'n']);
            }
        } else {
            let piece = s.substring_char(i, i + 1);
            out.append(piece);
            proof {
                assert(piece@ =~= seq![c]);
            }
        }
        proof {
            lemma_esc_snoc(s@.take(i as int), c);
            assert(s@.take(i as int).push(c) =~= s@.take(i as int + 1));
            assert(out@ =~= esc(s@.take(i as int + 1)));
        }
        i = i + 1;
    }
    proof {
        assert(s@.take(n as int) =~= s@);
    }
    out
}

/// Read a stored field value back, exactly as `unesc` does.
fn unescape_value(s: &str) -> (r: Option<String>)
    ensures
        match r {
            Some(v) => unesc(s@) == Some(v@),
            None => unesc(s@) is None,
        },
{
    let n = s.unicode_len();
    let mut out = String::new();
    let mut i: usize = 0;
    proof {
        assert(s@.skip(0) =~= s@);
        match unesc(s@) {
            Some(t) => {
                assert(out@ + t =~= t);
            },
            None => {},
        }
    }
    while i < n
        invariant
            i <= n,
            n == s@.len(),
            (unesc(s@.skip(i as int)) is None ==> unesc(s@) is None),
            (unesc(s@.skip(i as int)) matches Some(t) ==> unesc(s@) == Some(out@ + t)),
        decreases n - i,
    {
        let ghost suffix = s@.skip(i as int);
        proof {
            assert(suffix.len() == n - i);
            assert(suffix[0] == s@[i as int]);
        }
        let c = s.get_char(i);
        if c == '\\' {
            if i + 1 >= n {
                proof {
                    assert(suffix.len() < 2);
                    assert(unesc(suffix) is None);
                }
                return None;
            }
            let c2 = s.get_char(i + 1);
            proof {
                assert(suffix[1] == s@[i as int + 1]);
                assert(suffix.skip(2) =~= s@.skip(i as int + 2));
            }
            if c2 == '\\' {
                let ghost out_pre = out@;
                out.append("\\");
                proof {
                    reveal_strlit("\\");
                    assert("\\"@ =~= seq!['\\']);
                    assert(out@ == out_pre + seq!['\\']);
                    match unesc(s@.skip(i as int + 2)) {
                        Some(t) => {
                            assert(unesc(suffix) == Some(seq!['\\'] + t));
                            assert(out_pre + (seq!['\\'] + t) =~= out@ + t);
                        },
                        None => {},
                    }
                }
            } else if c2 == 'n' {
                let ghost out_pre = out@;
                out.append("\n");
                proof {
                    reveal_strlit("\n");
                    assert("\n"@ =~= seq!['\n']);
                    assert(out@ == out_pre + seq!['\n']);
                    match unesc(s@.skip(i as int + 2)) {
                        Some(t) => {
                            assert(unesc(suffix) == Some(seq!['\n'] + t));
                            assert(out_pre + (seq!['\n'] + t) =~= out@ + t);
                        },
                        None => {},
                    }
                }
            } else {
                proof {
                    assert(unesc(suffix) is None);
                }
                return None;
            }
            i = i + 2;
        } else {
            let piece = s.substring_char(i, i + 1);
            let ghost out_pre = out@;
            out.append(piece);
            proof {
                assert(piece@ =~= seq![c]);
                assert(out@ == out_pre + seq![c]);
                assert(suffix.drop_first() =~= s@.skip(i as int + 1));
                match unesc(s@.skip(i as int + 1)) {
                    Some(t) => {
                        assert(unesc(suffix) == Some(seq![c] + t));
                        assert(out_pre + (seq![c] + t) =~= out@ + t);
                    },
                    None => {},
                }
            }
            i = i + 1;
        }
    }
    proof {
        assert(s@.skip(n as int) =~= Seq::<char>::empty());
        assert(unesc(s@.skip(n as int)) == Some(Seq::<char>::empty()));
        assert(out@ + Seq::<char>::empty() =~= out@);
    }
    Some(out)
}

/// The abstract values of a list of prompts.
pub open spec fn prompts_view(v: Seq<Prompt>) -> Seq<PromptView> {
    v.map_values(|p: Prompt| p@)
}

/// Read the prompt pairs of a document, exactly as `parse_prompts` does.
fn read_prompts(doc: &str) -> (r: Option<Vec<Prompt>>)
    ensures
        match r {
            Some(v) => parse_prompts(doc@) == Some(prompts_view(v@)),
            None => parse_prompts(doc@) is None,
        },
{
    let mut acc: Vec<Prompt> = Vec::new();
    let mut cur: &str = doc;
    loop
        invariant
            parse_prompts(cur@) is None ==> parse_prompts(doc@) is None,
            (parse_prompts(cur@) matches Some(t) ==> parse_prompts(doc@) == Some(
                prompts_view(acc@) + t,
            )),
        decreases cur@.len(),
    {
        let n = cur.unicode_len();
        if n == 0 {
            proof {
                assert(parse_prompts(cur@) == Some(Seq::<PromptView>::empty()));
                assert(prompts_view(acc@) + Seq::<PromptView>::empty() =~= prompts_view(acc@));
            }
            return Some(acc);
        }
        let ghost pre = cur@;
        match take_line(cur) {
            None => {
                return None;
            },
            Some((l1, r1)) => {
                match strip_tag(l1, "title:") {
                    None => {
                        return None;
                    },
                    Some(title) => {
                        match take_line(r1) {
                            None => {
                                return None;
                            },
                            Some((l2, r2)) => {
                                match strip_tag(l2, "text:") {
                                    None => {
                                        return None;
                                    },
                                    Some(text) => {
                                        let title = match unescape_value(title) {
                                            Some(v) => v,
                                            None => {
                                                return None;
                                            },
                                        };
                                        let text = match unescape_value(text) {
                                            Some(v) => v,
                                            None => {
                                                return None;
                                            },
                                        };
                                        let p = Prompt { title, text };
                                        proof {
                                            let pv = PromptView { title: p.title@, text: p.text@ };
                                            assert(parse_prompts(pre) == (match parse_prompts(
                                                r2@,
                                            ) {
                                                None => None,
                                                Some(ps) => Some(seq![pv] + ps),
                                            }));
                                            assert(prompts_view(acc@.push(p)) =~= prompts_view(
                                                acc@,
                                            ) + seq![pv]);
                                            match parse_prompts(r2@) {
                                                Some(t) => {
                                                    assert(prompts_view(acc@) + (seq![pv] + t)
                                                        =~= (prompts_view(acc@) + seq![pv]) + t);
                                                },
                                                None => {},
                                            }
                                            assert(r2@.len() < pre.len());
                                        }
                                        acc.push(p);
                                        cur = r2;
                                    },
                                }
                            },
                        }
                    },
                }
            },
        }
    }
}

/// Read a prompt-set document, exactly as `parse_prompt_set` does: the
/// parsed set on a well-formed document, nothing otherwise.
pub fn read_prompt_set(doc: &str) -> (r: Option<PromptSet>)
    ensures
        match r {
            Some(ps) => parse_prompt_set(doc@) == Some(ps@),
            None => parse_prompt_set(doc@) is None,
        },
{
    match take_line(doc) {
        None => None,
        Some((l, rest)) => match strip_tag(l, "prompt_template:") {
            None => None,
            Some(template) => match unescape_value(template) {
                None => None,
                Some(prompt_template) => match read_prompts(rest) {
                    None => None,
                    Some(prompts) => Some(PromptSet { prompt_template, prompts }),
                },
            },
        },
    }
}

/// A decimal digit.
pub open spec fn is_digit(c: char) -> bool {
    48 <= c as u32 <= 57
}

/// A non-empty run of decimal digits.
pub open spec fn is_digits(s: Seq<char>) -> bool {
    s.len() > 0 && forall|i: int| 0 <= i < s.len() ==> is_digit(#[trigger] s[i])
}

/// The numeric value a run of digits denotes.
pub open spec fn digits_val(s: Seq<char>) -> int
    decreases s.len(),
{
    if s.len() == 0 {
        0
    } else {
        10 * digits_val(s.drop_last()) + ((s.last() as u32) as int - 48)
    }
}

/// One more digit multiplies the value by ten and adds the digit.
proof fn lemma_digits_val_step(s: Seq<char>, j: int)
    requires
        0 <= j < s.len(),
    ensures
        digits_val(s.take(j + 1)) == 10 * digits_val(s.take(j)) + ((s[j] as u32) as int - 48),
{
    assert(s.take(j + 1).drop_last() =~= s.take(j));
    assert(s.take(j + 1).last() == s[j]);
}

/// The value of a digit prefix is never negative.
proof fn lemma_digits_val_nonneg(s: Seq<char>, i: int)
    requires
        0 <= i <= s.len(),
        forall|k: int| 0 <= k < i ==> is_digit(#[trigger] s[k]),
    ensures
        digits_val(s.take(i)) >= 0,
    decreases i,
{
    if i > 0 {
        lemma_digits_val_nonneg(s, i - 1);
        lemma_digits_val_step(s, i - 1);
    } else {
        assert(s.take(0) =~= Seq::<char>::empty());
    }
}

/// Reading further digits never makes the value smaller.
proof fn lemma_digits_val_mono(s: Seq<char>, i: int, j: int)
    requires
        0 <= i <= j <= s.len(),
        forall|k: int| 0 <= k < j ==> is_digit(#[trigger] s[k]),
    ensures
        digits_val(s.take(j)) >= digits_val(s.take(i)),
    decreases j - i,
{
    if i < j {
        lemma_digits_val_nonneg(s, i);
        lemma_digits_val_step(s, i);
        lemma_digits_val_mono(s, i + 1, j);
    }
}

/// Parse a run of decimal digits into a 32-bit count: the denoted value
/// exactly when the text is all digits and the value fits.
fn parse_u32_digits(s: &str) -> (r: Option<u32>)
    ensures
        match r {
            Some(v) => is_digits(s@) && digits_val(s@) <= u32::MAX && v as int == digits_val(s@),
            None => !(is_digits(s@) && digits_val(s@) <= u32::MAX),
        },
{
    let n = s.unicode_len();
    if n == 0 {
        return None;
    }
    let mut acc: u32 = 0;
    let mut i: usize = 0;
    while i < n
        invariant
            i <= n,
            n == s@.len(),
            n > 0,
            forall|j: int| 0 <= j < i ==> is_digit(#[trigger] s@[j]),
            acc as int == digits_val(s@.take(i as int)),
        decreases n - i,
    {
        let c = s.get_char(i);
        let d = c as u32;
        if d < 48 || d > 57 {
            proof {
                assert(!is_digit(s@[i as int]));
            }
            return None;
        }
        proof {
            lemma_digits_val_step(s@, i as int);
        }
        let shifted = match acc.checked_mul(10) {
            Some(x) => x,
            None => {
                proof {
                    if is_digits(s@) {
                        lemma_digits_val_mono(s@, i as int + 1, n as int);
                        assert(s@.take(n as int) =~= s@);
                    }
                }
                return None;
            },
        };
        let next = match shifted.checked_add(d - 48) {
            Some(x) => x,
            None => {
                proof {
                    if is_digits(s@) {
                        lemma_digits_val_mono(s@, i as int + 1, n as int);
                        assert(s@.take(n as int) =~= s@);
                    }
                }
                return None;
            },
        };
        acc = next;
        i = i + 1;
    }
    proof {
        assert(s@.take(n as int) =~= s@);
    }
    Some(acc)
}

/// The connection settings a document denotes: the four tagged lines in
/// order, with a decimal token cap that fits in 32 bits, and nothing
/// after them.
pub open spec fn parse_config_set(s: Seq<char>) -> Option<ConfigSetView> {
    match split_line(s) {
        None => None,
        Some((l1, r1)) => if !tagged(l1, "api_key:"@) {
            None
        } else {
            match split_line(r1) {
                None => None,
                Some((l2, r2)) => if !tagged(l2, "api_base:"@) {
                    None
                } else {
                    match split_line(r2) {
                        None => None,
                        Some((l3, r3)) => if !tagged(l3, "model:"@) {
                            None
                        } else {
                            match split_line(r3) {
                                None => None,
                                Some((l4, r4)) => if !tagged(l4, "max_tokens:"@) || r4.len()
                                    != 0 {
                                    None
                                } else {
                                    let digits = tag_value(l4, "max_tokens:"@);
                                    match (
                                        unesc(tag_value(l1, "api_key:"@)),
                                        unesc(tag_value(l2, "api_base:"@)),
                                        unesc(tag_value(l3, "model:"@)),
                                    ) {
                                        (Some(api_key), Some(api_base), Some(model)) => if is_digits(
                                            digits,
                                        ) && digits_val(digits) <= u32::MAX {
                                            Some(
                                                ConfigSetView {
                                                    api_key,
                                                    api_base,
                                                    model,
                                                    max_tokens: digits_val(digits) as u32,
                                                },
                                            )
                                        } else {
                                            None
                                        },
                                        _ => None,
                                    }
                                },
                            }
                        },
                    }
                },
            }
        },
    }
}

/// Read a connection-settings document, exactly as `parse_config_set`
/// does: the parsed settings on a well-formed document, nothing otherwise.
pub fn read_config_set(doc: &str) -> (r: Option<ConfigSet>)
    ensures
        match r {
            Some(c) => parse_config_set(doc@) == Some(c@),
            None => parse_config_set(doc@) is None,
        },
{
    match take_line(doc) {
        None => None,
        Some((l1, r1)) => match strip_tag(l1, "api_key:") {
            None => None,
            Some(api_key) => match take_line(r1) {
                None => None,
                Some((l2, r2)) => match strip_tag(l2, "api_base:") {
                    None => None,
                    Some(api_base) => match take_line(r2) {
                        None => None,
                        Some((l3, r3)) => match strip_tag(l3, "model:") {
                            None => None,
                            Some(model) => match take_line(r3) {
                                None => None,
                                Some((l4, r4)) => {
                                    if r4.unicode_len() != 0 {
                                        return None;
                                    }
                                    let api_key = match unescape_value(api_key) {
                                        Some(v) => v,
                                        None => {
                                            return None;
                                        },
                                    };
                                    let api_base = match unescape_value(api_base) {
                                        Some(v) => v,
                                        None => {
                                            return None;
                                        },
                                    };
                                    let model = match unescape_value(model) {
                                        Some(v) => v,
                                        None => {
                                            return None;
                                        },
                                    };
                                    match strip_tag(l4, "max_tokens:") {
                                        None => None,
                                        Some(digits) => match parse_u32_digits(digits) {
                                            None => None,
                                            Some(max_tokens) => Some(
                                                ConfigSet { api_key, api_base, model, max_tokens },
                                            ),
                                        },
                                    }
                                },
                            },
                        },
                    },
                },
            },
        },
    }
}

/// Appending one prompt appends its two lines.
proof fn lemma_prompts_doc_snoc(ps: Seq<PromptView>, p: PromptView)
    ensures
        prompts_doc(ps.push(p)) == prompts_doc(ps) + prompt_doc(p),
    decreases ps.len(),
{
    if ps.len() == 0 {
        assert(ps.push(p).drop_first() =~= Seq::<PromptView>::empty());
        assert(ps.push(p)[0] == p);
        assert(ps =~= Seq::<PromptView>::empty());
        assert(prompts_doc(Seq::<PromptView>::empty()) == Seq::<char>::empty());
        assert(prompts_doc(ps.push(p)) == prompt_doc(p) + prompts_doc(
            ps.push(p).drop_first(),
        ));
        assert(prompts_doc(ps.push(p)) =~= prompts_doc(ps) + prompt_doc(p));
    } else {
        lemma_prompts_doc_snoc(ps.drop_first(), p);
        assert(ps.push(p).drop_first() =~= ps.drop_first().push(p));
        assert(ps.push(p)[0] == ps[0]);
        assert(prompts_doc(ps.push(p)) =~= prompts_doc(ps) + prompt_doc(p));
    }
}

} // verus!
