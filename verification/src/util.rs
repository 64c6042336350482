use vstd::prelude::*;
use crate::data::file_metadata::{words, normalize_tag_value};
use crate::text::{
    sorted_texts, string_views, text_lt, text_lt_chars, lemma_text_lt_order, is_whitespace, lemma_contains_suffix, lemma_occurs_found, lemma_split_char_append, lemma_trim_ends,
    lemma_trim_unchanged, occurs_at, join, contains_chars, contains_text, push_str,
    chars_eq, chars_of, lines, lines_of, split_char, split_chars, string_from, trim, trim_chars,
    trim_start, trim_start_chars, is_whitespace_char,
};

verus! {

/// A text cut down to `max_chars` characters from the front: texts that fit are kept; longer
/// ones become `...` followed by their last `max_chars - 3` characters (no characters when
/// `max_chars < 3`).
pub open spec fn spec_truncate_front(s: Seq<char>, max_chars: nat) -> Seq<char> {
    if s.len() <= max_chars {
        s
    } else {
        let keep = if max_chars >= 3 { max_chars - 3 } else { 0 };
        "..."@ + s.skip(s.len() - keep)
    }
}

/// Shortens a text from the front (see [`spec_truncate_front`]).
pub fn truncate_front(s: &str, max_chars: usize) -> (r: String)
    ensures
        r@ == spec_truncate_front(s@, max_chars as nat),
{
    let c = chars_of(s);
    let char_count = c.len();
    if char_count <= max_chars {
        return string_from(c.as_slice());
    }
    let keep_count = if max_chars >= 3 { max_chars - 3 } else { 0 };
    let mut r = chars_of("...");
    let mut tail = vstd::slice::slice_to_vec(vstd::slice::slice_subrange(c.as_slice(), char_count - keep_count, char_count));
    r.append(&mut tail);
    assert(r@ =~= spec_truncate_front(s@, max_chars as nat));
    string_from(r.as_slice())
}

/// The config text with every line whose key (the text before the first `=`) is `key`
/// replaced by `key=value`, where `value` loses its `=` characters; lines are joined with `\n`.
pub open spec fn spec_set_config_text(text: Seq<char>, key: Seq<char>, value: Seq<char>) -> Seq<char> {
    join(config_lines_after_set(text, key, value), "\n"@)
}

/// The lines of the config text after setting `key` (see [`spec_set_config_text`]).
pub open spec fn config_lines_after_set(text: Seq<char>, key: Seq<char>, value: Seq<char>) -> Seq<Seq<char>> {
    let v = value.filter(|c: char| c != '=');
    let ls = lines(text);
    Seq::new(ls.len(), |i: int| if split_char(ls[i], '=')[0] == key { key + "="@ + v } else { ls[i] })
}

fn remove_equals(v: &[char]) -> (r: Vec<char>)
    ensures
        r@ == v@.filter(|c: char| c != '='),
{
    let mut r: Vec<char> = Vec::new();
    let mut i: usize = 0;
    while i < v.len()
        invariant
            i <= v@.len(),
            r@ == v@.take(i as int).filter(|c: char| c != '='),
        decreases v@.len() - i,
    {
        proof {
            reveal_with_fuel(Seq::filter, 1);
            assert(v@.take(i as int + 1).drop_last() =~= v@.take(i as int));
        }
        if v[i] != '=' {
            r.push(v[i]);
        }
        i += 1;
    }
    assert(v@.take(v@.len() as int) =~= v@);
    r
}

/// Rewrites the config text for a new value of `key` (see [`spec_set_config_text`]).
pub fn set_config_text(text: &str, key: &str, value: &str) -> (r: String)
    ensures
        r@ == spec_set_config_text(text@, key@, value@),
{
    let t = chars_of(text);
    let k = chars_of(key);
    let vc = chars_of(value);
    let v = remove_equals(vc.as_slice());
    let ls = lines_of(t.as_slice());
    let ghost lv = lines(text@);
    let ghost want = Seq::new(lv.len(), |i: int| if split_char(lv[i], '=')[0] == key@ { key@ + "="@ + v@ } else { lv[i] });
    let mut out: Vec<char> = Vec::new();
    let mut i: usize = 0;
    while i < ls.len()
        invariant
            ls@.len() == lv.len(),
            forall|j: int| 0 <= j < ls@.len() ==> #[trigger] ls@[j]@ == lv[j],
            k@ == key@,
            want == Seq::new(lv.len(), |i: int| if split_char(lv[i], '=')[0] == key@ { key@ + "="@ + v@ } else { lv[i] }),
            i <= ls@.len(),
            out@ == join(want.take(i as int), "\n"@),
        decreases ls@.len() - i,
    {
        assert(want.take(i as int + 1).drop_last() =~= want.take(i as int));
        proof {
            reveal_strlit("=");
            reveal_strlit("\n");
        }
        if i > 0 {
            out.push('\n');
        }
        let pieces = split_chars(ls[i].as_slice(), '=');
        proof {
            crate::text::lemma_split_char_nonempty(lv[i as int], '=');
        }
        let mut line = if chars_eq(pieces[0].as_slice(), k.as_slice()) {
            let mut l = k.clone();
            l.push('=');
            let mut vv = v.clone();
            l.append(&mut vv);
            l
        } else {
            ls[i].clone()
        };
        assert(line@ == want[i as int]);
        out.append(&mut line);
        i += 1;
        proof {
            if i == 1 {
                assert(out@ =~= join(want.take(1), "\n"@));
            } else {
                assert(out@ =~= join(want.take(i as int), "\n"@));
            }
        }
    }
    assert(want.take(ls@.len() as int) =~= want);
    string_from(out.as_slice())
}

/// The value stored for `key` in a config text: on the first line whose key (the text before
/// the first `=`) is `key`, the text after the last `=`; nothing when there is no such line or
/// that line has no `=`.
pub open spec fn spec_get_config_value(text: Seq<char>, key: Seq<char>, i: int) -> Option<Seq<char>>
    decreases lines(text).len() - i,
{
    let ls = lines(text);
    if i < 0 || i >= ls.len() {
        None
    } else {
        let pieces = split_char(ls[i], '=');
        if pieces[0] == key {
            if pieces.len() >= 2 {
                Some(pieces.last())
            } else {
                None
            }
        } else {
            spec_get_config_value(text, key, i + 1)
        }
    }
}

/// Looks `key` up in a config text (see [`spec_get_config_value`]).
pub fn get_config_value(text: &str, key: &str) -> (r: Option<String>)
    ensures
        match spec_get_config_value(text@, key@, 0) {
            Some(v) => r matches Some(x) && x@ == v,
            None => r is None,
        },
{
    let t = chars_of(text);
    let k = chars_of(key);
    let ls = lines_of(t.as_slice());
    let ghost lv = lines(text@);
    let mut i: usize = 0;
    while i < ls.len()
        invariant
            ls@.len() == lv.len(),
            lv == lines(text@),
            forall|j: int| 0 <= j < ls@.len() ==> #[trigger] ls@[j]@ == lv[j],
            k@ == key@,
            i <= ls@.len(),
            spec_get_config_value(text@, key@, 0) == spec_get_config_value(text@, key@, i as int),
        decreases ls@.len() - i,
    {
        let pieces = split_chars(ls[i].as_slice(), '=');
        proof {
            crate::text::lemma_split_char_nonempty(lv[i as int], '=');
        }
        if chars_eq(pieces[0].as_slice(), k.as_slice()) {
            if pieces.len() >= 2 {
                let last = pieces.len() - 1;
                return Some(string_from(pieces[last].as_slice()));
            } else {
                return None;
            }
        }
        i += 1;
    }
    None
}


/// The `(file name, mime type)` pair of a line `mime type<TAB>file name`, trimmed; nothing
/// for lines that do not have exactly two tab separated fields.
pub open spec fn mimetype_pair(line: Seq<char>) -> Option<(Seq<char>, Seq<char>)> {
    let parts = split_char(line, '\t');
    if parts.len() == 2 {
        Some((trim(parts[1]), trim(parts[0])))
    } else {
        None
    }
}

/// The pairs of all lines that have them, in order.
pub open spec fn mimetype_pairs(ls: Seq<Seq<char>>) -> Seq<(Seq<char>, Seq<char>)>
    decreases ls.len(),
{
    if ls.len() == 0 {
        seq![]
    } else {
        match mimetype_pair(ls.last()) {
            Some(p) => mimetype_pairs(ls.drop_last()).push(p),
            None => mimetype_pairs(ls.drop_last()),
        }
    }
}

/// Reads the tab separated `mime type<TAB>file name` listing of a batch mime type query as
/// `(file name, mime type)` pairs (see [`mimetype_pairs`]).
pub fn parse_batch_mimetypes(stdout: &str) -> (r: Vec<(String, String)>)
    ensures
        r@.map_values(|p: (String, String)| (p.0@, p.1@)) == mimetype_pairs(lines(stdout@)),
{
    let t = chars_of(stdout);
    let ls = lines_of(t.as_slice());
    let ghost lv = lines(stdout@);
    let mut r: Vec<(String, String)> = Vec::new();
    let mut i: usize = 0;
    while i < ls.len()
        invariant
            ls@.len() == lv.len(),
            forall|j: int| 0 <= j < ls@.len() ==> #[trigger] ls@[j]@ == lv[j],
            i <= ls@.len(),
            r@.map_values(|p: (String, String)| (p.0@, p.1@)) == mimetype_pairs(lv.take(i as int)),
        decreases ls@.len() - i,
    {
        assert(lv.take(i as int + 1).drop_last() =~= lv.take(i as int));
        let parts = split_chars(ls[i].as_slice(), '\t');
        if parts.len() == 2 {
            let name = trim_chars(parts[1].as_slice());
            let mime = trim_chars(parts[0].as_slice());
            let ghost before = r@.map_values(|p: (String, String)| (p.0@, p.1@));
            r.push((string_from(name.as_slice()), string_from(mime.as_slice())));
            assert(r@.map_values(|p: (String, String)| (p.0@, p.1@)) =~= before.push((name@, mime@)));
        }
        i += 1;
    }
    assert(lv.take(ls@.len() as int) =~= lv);
    r
}

/// The file extensions a line of FFmpeg's format listing (`<flags> <names> <description>`)
/// declares: the comma separated names, when the flags mark a demuxer (`D`) or muxer (`E`)
/// and the names are not the `=` of the header.
pub open spec fn format_line_extensions(line: Seq<char>) -> Seq<Seq<char>> {
    let ws = words(line);
    if ws.len() < 2 {
        seq![]
    } else if !(ws[0].contains('D') || ws[0].contains('E')) || ws[1] == "="@ {
        seq![]
    } else {
        split_char(ws[1], ',').filter(|e: Seq<char>| e.len() > 0)
    }
}

/// The extensions declared by all lines, in order.
pub open spec fn format_extensions(ls: Seq<Seq<char>>) -> Seq<Seq<char>>
    decreases ls.len(),
{
    if ls.len() == 0 {
        seq![]
    } else {
        format_extensions(ls.drop_last()) + format_line_extensions(ls.last())
    }
}

fn words_of(s: &[char]) -> (r: Vec<Vec<char>>)
    ensures
        r@.map_values(|w: Vec<char>| w@) == words(s@),
{
    let mut ws: Vec<Vec<char>> = Vec::new();
    let mut i: usize = 0;
    while i < s.len()
        invariant
            i <= s@.len(),
            ws@.map_values(|p: Vec<char>| p@) == words(s@.take(i as int)),
        decreases s@.len() - i,
    {
        let c = s[i];
        proof {
            assert(s@.take(i as int + 1).drop_last() =~= s@.take(i as int));
            crate::data::file_metadata::lemma_words_nonempty(s@.take(i as int));
        }
        if !is_whitespace_char(c) {
            if i >= 1 && !is_whitespace_char(s[i - 1]) {
                let k = ws.len() - 1;
                let mut last = ws.remove(k);
                last.push(c);
                ws.push(last);
            } else {
                let mut w: Vec<char> = Vec::new();
                w.push(c);
                ws.push(w);
            }
        }
        i += 1;
        assert(ws@.map_values(|p: Vec<char>| p@) =~= words(s@.take(i as int)));
    }
    assert(s@.take(s@.len() as int) =~= s@);
    ws
}

fn contains_char(s: &[char], c: char) -> (r: bool)
    ensures
        r == s@.contains(c),
{
    let mut i: usize = 0;
    while i < s.len()
        invariant
            i <= s@.len(),
            forall|j: int| 0 <= j < i ==> s@[j] != c,
        decreases s@.len() - i,
    {
        if s[i] == c {
            return true;
        }
        i += 1;
    }
    false
}

fn line_extensions(line: &[char], out: &mut Vec<String>)
    ensures
        final(out)@.map_values(|e: String| e@) == old(out)@.map_values(|e: String| e@) + format_line_extensions(line@),
{
    let ghost before = out@.map_values(|e: String| e@);
    let ws = words_of(line);
    let ghost wv = words(line@);
    assert(ws@.len() == wv.len());
    if ws.len() < 2 {
        assert(out@.map_values(|e: String| e@) =~= before + format_line_extensions(line@));
        return;
    }
    assert(ws@[0]@ == wv[0] && ws@[1]@ == wv[1]);
    let eq = chars_of("=");
    if !(contains_char(ws[0].as_slice(), 'D') || contains_char(ws[0].as_slice(), 'E')) || chars_eq(ws[1].as_slice(), eq.as_slice()) {
        assert(out@.map_values(|e: String| e@) =~= before + format_line_extensions(line@));
        return;
    }
    let exts = split_chars(ws[1].as_slice(), ',');
    let ghost ev = split_char(wv[1], ',');
    let mut i: usize = 0;
    while i < exts.len()
        invariant
            exts@.len() == ev.len(),
            forall|j: int| 0 <= j < exts@.len() ==> #[trigger] exts@[j]@ == ev[j],
            i <= exts@.len(),
            out@.map_values(|e: String| e@) == before + ev.take(i as int).filter(|e: Seq<char>| e.len() > 0),
        decreases exts@.len() - i,
    {
        proof {
            reveal_with_fuel(Seq::filter, 1);
            assert(ev.take(i as int + 1).drop_last() =~= ev.take(i as int));
        }
        if exts[i].len() > 0 {
            let ghost b2 = out@.map_values(|e: String| e@);
            out.push(string_from(exts[i].as_slice()));
            assert(out@.map_values(|e: String| e@) =~= b2.push(ev[i as int]));
        }
        i += 1;
    }
    assert(ev.take(exts@.len() as int) =~= ev);
}

/// The file extensions FFmpeg's `-formats` listing declares, reading its standard output and
/// then its standard error (see [`format_extensions`]), in that order.
fn declared_extensions(stdout: &str, stderr: &str) -> (r: Vec<String>)
    ensures
        r@.map_values(|e: String| e@) == format_extensions(lines(stdout@) + lines(stderr@)),
{
    let a = chars_of(stdout);
    let b = chars_of(stderr);
    let mut ls = lines_of(a.as_slice());
    let mut lb = lines_of(b.as_slice());
    let ghost lv = lines(stdout@) + lines(stderr@);
    let ghost la = ls@;
    let ghost lbv = lb@;
    ls.append(&mut lb);
    assert forall|j: int| 0 <= j < ls@.len() implies #[trigger] ls@[j]@ == lv[j] by {
        if j >= la.len() {
            assert(ls@[j] == lbv[j - la.len()]);
        }
    }
    let mut r: Vec<String> = Vec::new();
    let mut i: usize = 0;
    while i < ls.len()
        invariant
            ls@.len() == lv.len(),
            forall|j: int| 0 <= j < ls@.len() ==> #[trigger] ls@[j]@ == lv[j],
            i <= ls@.len(),
            r@.map_values(|e: String| e@) == format_extensions(lv.take(i as int)),
        decreases ls@.len() - i,
    {
        assert(lv.take(i as int + 1).drop_last() =~= lv.take(i as int));
        line_extensions(ls[i].as_slice(), &mut r);
        i += 1;
    }
    assert(lv.take(ls@.len() as int) =~= lv);
    r
}

/// The user `PATH` on Windows after adding `dir`: unchanged (`None`) when one of its
/// `;`-separated entries is `dir` up to surrounding whitespace; otherwise the trimmed path
/// with `;` and `dir` appended, or `dir` alone when the path is empty.
pub open spec fn spec_user_path_with(current: Seq<char>, dir: Seq<char>) -> Option<Seq<char>> {
    let c = trim(current);
    let entries = split_char(c, ';');
    if exists|i: int| 0 <= i < entries.len() && trim(#[trigger] entries[i]) == dir {
        None
    } else if c.len() == 0 {
        Some(dir)
    } else {
        Some(c + ";"@ + dir)
    }
}

/// The user `PATH` on Windows after adding `dir` (see [`spec_user_path_with`]).
pub fn user_path_with(current: &str, dir: &str) -> (r: Option<String>)
    ensures
        match spec_user_path_with(current@, dir@) {
            None => r is None,
            Some(p) => r matches Some(x) && x@ == p,
        },
{
    let cur = chars_of(current);
    let c = trim_chars(cur.as_slice());
    let d = chars_of(dir);
    let entries = split_chars(c.as_slice(), ';');
    let ghost es = split_char(c@, ';');
    let mut i: usize = 0;
    while i < entries.len()
        invariant
            entries@.len() == es.len(),
            es == split_char(trim(current@), ';'),
            forall|k: int| 0 <= k < es.len() ==> #[trigger] entries@[k]@ == es[k],
            d@ == dir@,
            i <= es.len(),
            forall|k: int| 0 <= k < i ==> trim(#[trigger] es[k]) != dir@,
        decreases es.len() - i,
    {
        let t = trim_chars(entries[i].as_slice());
        if chars_eq(t.as_slice(), d.as_slice()) {
            assert(trim(es[i as int]) == dir@);
            return None;
        }
        i += 1;
    }
    if c.len() == 0 {
        return Some(dir.to_owned());
    }
    let mut v = c;
    v.push(';');
    push_str(&mut v, dir);
    proof {
        reveal_strlit(";");
        assert(v@ =~= trim(current@) + ";"@ + dir@);
    }
    Some(string_from(v.as_slice()))
}

/// A text with each `'` doubled, as PowerShell reads a single-quoted string.
pub open spec fn escape_quotes(s: Seq<char>) -> Seq<char>
    decreases s.len(),
{
    if s.len() == 0 {
        seq![]
    } else {
        escape_quotes(s.drop_last()) + if s.last() == '\'' {
            seq!['\'', '\'']
        } else {
            seq![s.last()]
        }
    }
}

/// The PowerShell command that sets the user `PATH` to `new_path`.
pub open spec fn spec_set_user_path_command(new_path: Seq<char>) -> Seq<char> {
    "[Environment]::SetEnvironmentVariable('PATH', '"@ + escape_quotes(new_path) + "', 'User')"@
}

/// The PowerShell command that sets the user `PATH` (see [`spec_set_user_path_command`]).
pub fn set_user_path_command(new_path: &str) -> (r: String)
    ensures
        r@ == spec_set_user_path_command(new_path@),
{
    let p = chars_of(new_path);
    let mut v: Vec<char> = Vec::new();
    push_str(&mut v, "[Environment]::SetEnvironmentVariable('PATH', '");
    let ghost head = v@;
    let mut i: usize = 0;
    while i < p.len()
        invariant
            p@ == new_path@,
            i <= p@.len(),
            v@ == head + escape_quotes(p@.take(i as int)),
        decreases p@.len() - i,
    {
        assert(p@.take(i + 1).drop_last() =~= p@.take(i as int));
        if p[i] == '\'' {
            v.push('\'');
            v.push('\'');
        } else {
            v.push(p[i]);
        }
        i += 1;
        assert(v@ =~= head + escape_quotes(p@.take(i as int)));
    }
    assert(p@.take(p@.len() as int) =~= p@);
    push_str(&mut v, "', 'User')");
    string_from(v.as_slice())
}

/// The line added to a shell start-up file to put `dir` first on the `PATH`.
pub open spec fn spec_path_export_line(dir: Seq<char>) -> Seq<char> {
    "\nexport PATH=\""@ + dir + ":$PATH\"\n"@
}

/// The line added to a shell start-up file (see [`spec_path_export_line`]).
pub fn path_export_line(dir: &str) -> (r: String)
    ensures
        r@ == spec_path_export_line(dir@),
{
    let mut v: Vec<char> = Vec::new();
    push_str(&mut v, "\nexport PATH=\"");
    push_str(&mut v, dir);
    push_str(&mut v, ":$PATH\"\n");
    string_from(v.as_slice())
}

/// Whether a shell start-up file with content `existing` still lacks `dir` anywhere, so that
/// the export line is to be appended to it.
pub fn rc_needs_export(existing: &str, dir: &str) -> (r: bool)
    ensures
        r == !contains_text(existing@, dir@),
{
    let e = chars_of(existing);
    let d = chars_of(dir);
    !contains_chars(e.as_slice(), d.as_slice())
}

proof fn lemma_filter_keeps_out(s: Seq<char>, pred: spec_fn(char) -> bool, c: char)
    requires
        !s.contains(c),
    ensures
        !s.filter(pred).contains(c),
    decreases s.len(),
{
    reveal_with_fuel(Seq::filter, 1);
    if s.len() > 0 {
        let t = s.drop_last();
        assert(!t.contains(c)) by {
            if t.contains(c) {
                let w = choose|w: int| 0 <= w < t.len() && t[w] == c;
                assert(s[w] == c);
            }
        }
        lemma_filter_keeps_out(t, pred, c);
        assert(s[s.len() - 1] == s.last());
        if pred(s.last()) {
            assert(s.filter(pred) == t.filter(pred).push(s.last()));
            if s.filter(pred).contains(c) {
                let w = choose|w: int| 0 <= w < s.filter(pred).len() && s.filter(pred)[w] == c;
                if w < t.filter(pred).len() {
                    assert(t.filter(pred)[w] == c);
                }
            }
        }
    }
}

proof fn lemma_lines_pieces(text: Seq<char>, c: char)
    requires
        !text.contains(c),
    ensures
        forall|i: int| 0 <= i < lines(text).len() ==> !(#[trigger] lines(text)[i]).contains(c) && !lines(text)[i].contains('\n'),
{
    let parts = split_char(text, '\n');
    crate::text::lemma_split_char_nonempty(text, '\n');
    crate::text::lemma_split_char_pieces(text, '\n');
    assert forall|i: int| 0 <= i < lines(text).len() implies !(#[trigger] lines(text)[i]).contains(c) && !lines(text)[i].contains('\n') by {
        let l = lines(text)[i];
        let p = parts[i];
        assert(l == p || l == p.drop_last());
        if l.contains(c) || l.contains('\n') {
            let w = choose|w: int| 0 <= w < l.len() && (l[w] == c || l[w] == '\n');
            assert(l[w] == p[w]);
            assert(split_char(text, '\n')[i][w] == p[w]);
        }
    }
}

/// The config text after writing `value` for `key`, its lines, and whether a line's key is
/// `key`.
proof fn lemma_get_after_set(
    text: Seq<char>,
    key: Seq<char>,
    value: Seq<char>,
    written: Seq<Seq<char>>,
    j: int,
)
    requires
        written == config_lines_after_set(text, key, value),
        lines(spec_set_config_text(text, key, value)).len() <= written.len(),
        forall|i: int| 0 <= i < lines(spec_set_config_text(text, key, value)).len() ==> #[trigger] lines(
            spec_set_config_text(text, key, value),
        )[i] == written[i],
        forall|i: int| 0 <= i < written.len() && split_char(lines(text)[i], '=')[0] == key ==> i < lines(
            spec_set_config_text(text, key, value),
        ).len(),
        split_char(key + "="@ + value.filter(|c: char| c != '='), '=') == seq![key, value.filter(|c: char| c != '=')],
        0 <= j <= written.len(),
        exists|i: int| j <= i < written.len() && split_char(#[trigger] lines(text)[i], '=')[0] == key,
    ensures
        spec_get_config_value(spec_set_config_text(text, key, value), key, j) == Some(value.filter(|c: char| c != '=')),
    decreases written.len() - j,
{
    let new = spec_set_config_text(text, key, value);
    let ls = lines(text);
    if split_char(ls[j], '=')[0] == key {
        assert(lines(new)[j] == written[j]);
    } else {
        let w = choose|i: int| j <= i < written.len() && split_char(#[trigger] lines(text)[i], '=')[0] == key;
        assert(w != j);
        assert(j < lines(new).len());
        assert(lines(new)[j] == ls[j]);
        lemma_get_after_set(text, key, value, written, j + 1);
    }
}

/// Reading a key back after writing it gives the value written, without its `=` characters.
/// Writing only rewrites the lines that hold the key, so the key must be in the text already;
/// the key must hold no `=`, and neither key, value nor text may hold a line break or a
/// carriage return.
pub proof fn law_config_read_after_write(text: Seq<char>, key: Seq<char>, value: Seq<char>)
    requires
        exists|i: int| 0 <= i < lines(text).len() && split_char(#[trigger] lines(text)[i], '=')[0] == key,
        !key.contains('='),
        !key.contains('\n'),
        !key.contains('\r'),
        !value.contains('\n'),
        !value.contains('\r'),
        !text.contains('\r'),
    ensures
        spec_get_config_value(spec_set_config_text(text, key, value), key, 0) == Some(value.filter(|c: char| c != '=')),
{
    reveal_strlit("=");
    reveal_strlit("\n");
    let pred = |c: char| c != '=';
    let v = value.filter(|c: char| c != '=');
    assert(v == value.filter(pred));
    let ls = lines(text);
    let written = config_lines_after_set(text, key, value);
    let new = spec_set_config_text(text, key, value);
    assert(forall|i: int| 0 <= i < written.len() ==> #[trigger] written[i] == if split_char(ls[i], '=')[0] == key { key + "="@ + v } else { ls[i] });
    lemma_filter_keeps_out(value, pred, '\n');
    lemma_filter_keeps_out(value, pred, '\r');
    assert(!v.contains('=')) by {
        if v.contains('=') {
            let w = choose|w: int| 0 <= w < v.len() && v[w] == '=';
            value.lemma_filter_pred(pred, w);
        }
    }
    lemma_lines_pieces(text, '\r');
    let kv = key + "="@ + v;
    assert(!kv.contains('\n') && !kv.contains('\r')) by {
        if kv.contains('\n') || kv.contains('\r') {
            let w = choose|w: int| 0 <= w < kv.len() && (kv[w] == '\n' || kv[w] == '\r');
            if w < key.len() {
                assert(key[w] == kv[w]);
            } else if w > key.len() {
                assert(v[w - key.len() - 1] == kv[w]);
            }
        }
    }
    assert forall|i: int| 0 <= i < written.len() implies !(#[trigger] written[i]).contains('\n') && !written[i].contains('\r') by {
        if split_char(ls[i], '=')[0] != key {
            assert(written[i] == ls[i]);
        }
    }
    // the written text splits back into the written lines
    let w0 = choose|i: int| 0 <= i < lines(text).len() && split_char(#[trigger] lines(text)[i], '=')[0] == key;
    assert(written.len() > 0);
    crate::text::lemma_split_join(written, '\n');
    assert("\n"@ =~= seq!['\n']);
    assert(split_char(new, '\n') == written);
    assert forall|i: int| 0 <= i < lines(new).len() implies #[trigger] lines(new)[i] == written[i] by {
        assert(!(written[i].len() > 0 && written[i].last() == '\r')) by {
            if written[i].len() > 0 && written[i].last() == '\r' {
                assert(written[i][written[i].len() - 1] == '\r');
            }
        }
    }
    assert forall|i: int| 0 <= i < written.len() && split_char(lines(text)[i], '=')[0] == key implies i < lines(new).len() by {
        assert(written[i] == kv);
        assert(kv.len() > 0);
    }
    // the written line splits into the key and the value
    assert(seq![key, v].drop_last() =~= seq![key]);
    assert(kv == join(seq![key, v], "="@)) by {
        reveal_with_fuel(join, 2);
    }
    assert("="@ =~= seq!['=']);
    let kvs = seq![key, v];
    assert forall|i: int| 0 <= i < kvs.len() implies !(#[trigger] kvs[i]).contains('=') by {}
    crate::text::lemma_split_join(kvs, '=');
    lemma_get_after_set(text, key, value, written, 0);
}

/// Once the export line for `dir` is appended to a start-up file, the file no longer needs it.
pub proof fn law_export_line_once(existing: Seq<char>, dir: Seq<char>)
    ensures
        contains_text(existing + spec_path_export_line(dir), dir),
{
    reveal_strlit("\nexport PATH=\"");
    let s = existing + spec_path_export_line(dir);
    let k = existing.len() as int + 14;
    assert(s.subrange(k, k + dir.len() as int) =~= dir);
    lemma_occurs_found(s, dir, 0, k);
}

/// Adding a folder to the user `PATH` twice changes it once: the second time finds it there.
/// This holds for folders without `;` and without whitespace at either end.
pub proof fn law_user_path_added_once(current: Seq<char>, dir: Seq<char>)
    requires
        !dir.contains(';'),
        trim(dir) == dir,
    ensures
        spec_user_path_with(current, dir) matches Some(p) ==> spec_user_path_with(p, dir) is None,
{
    reveal_strlit(";");
    let c = trim(current);
    if spec_user_path_with(current, dir) is Some {
        let p = spec_user_path_with(current, dir)->0;
        lemma_trim_ends(current);
        lemma_trim_ends(dir);
        crate::text::lemma_split_char_nonempty(p, ';');
        if c.len() == 0 {
            assert(p == dir);
            lemma_split_char_append(Seq::<char>::empty(), dir, ';');
            assert(Seq::<char>::empty() + dir =~= dir);
            let es = split_char(dir, ';');
            assert(es[0] == dir);
            assert(trim(es[0]) == dir);
        } else {
            let cs = c + seq![';'];
            assert(p == cs + dir);
            assert(cs.drop_last() =~= c);
            crate::text::lemma_split_char_nonempty(c, ';');
            if dir.len() > 0 {
                assert(p.last() == dir.last());
            } else {
                assert(p.last() == ';');
            }
            lemma_trim_unchanged(p);
            let es = split_char(p, ';');
            lemma_split_char_append(cs, dir, ';');
            let last = es.len() - 1;
            assert(es[last] =~= Seq::<char>::empty() + dir);
            assert(trim(es[last]) == dir);
        }
    }
}

/// Adds a text to a sorted list of texts, unless it is there already.
fn insert_text(v: &mut Vec<String>, x: &String)
    requires
        sorted_texts(string_views(old(v)@)),
    ensures
        sorted_texts(string_views(final(v)@)),
        forall|e: Seq<char>| #[trigger] string_views(final(v)@).contains(e) <==> string_views(old(v)@).contains(e) || e == x@,
{
    let ghost old_v = string_views(v@);
    let xc = chars_of(x.as_str());
    let mut k: usize = 0;
    while k < v.len()
        invariant
            old_v == string_views(v@),
            xc@ == x@,
            k <= v@.len(),
            forall|j: int| 0 <= j < k ==> text_lt(#[trigger] old_v[j], x@),
        ensures
            old_v == string_views(v@),
            k <= v@.len(),
            forall|j: int| 0 <= j < k ==> text_lt(#[trigger] old_v[j], x@),
            k < v@.len() ==> !text_lt(old_v[k as int], x@),
        decreases v@.len() - k,
    {
        let vc = chars_of(v[k].as_str());
        assert(old_v[k as int] == v@[k as int]@);
        if !text_lt_chars(vc.as_slice(), xc.as_slice()) {
            break;
        }
        k += 1;
    }
    if k < v.len() {
        let vc = chars_of(v[k].as_str());
        if chars_eq(vc.as_slice(), xc.as_slice()) {
            proof {
                assert(old_v[k as int] == x@);
                assert forall|e: Seq<char>| #[trigger] old_v.contains(e) <==> old_v.contains(e) || e == x@ by {
                    if e == x@ {
                        assert(old_v[k as int] == e);
                    }
                }
            }
            return;
        }
    }
    v.insert(k, x.clone());
    proof {
        let nv = string_views(v@);
        assert(nv =~= old_v.insert(k as int, x@));
        if k < old_v.len() {
            lemma_text_lt_order(old_v[k as int], x@, x@);
            assert(old_v[k as int] != x@);
            assert(!text_lt(old_v[k as int], x@));
            assert(text_lt(x@, old_v[k as int]));
        }
        assert forall|i: int, j: int| 0 <= i < j < nv.len() implies text_lt(#[trigger] nv[i], #[trigger] nv[j]) by {
            if j < k {
                assert(nv[i] == old_v[i] && nv[j] == old_v[j]);
            } else if j == k {
                assert(nv[j] == x@ && nv[i] == old_v[i]);
            } else if i < k {
                assert(nv[i] == old_v[i] && nv[j] == old_v[j - 1]);
                lemma_text_lt_order(old_v[i], x@, old_v[j - 1]);
                if j - 1 > k {
                    lemma_text_lt_order(x@, old_v[k as int], old_v[j - 1]);
                }
            } else if i == k {
                assert(nv[i] == x@ && nv[j] == old_v[j - 1]);
                if j - 1 > k {
                    lemma_text_lt_order(x@, old_v[k as int], old_v[j - 1]);
                }
            } else {
                assert(nv[i] == old_v[i - 1] && nv[j] == old_v[j - 1]);
            }
        }
        assert forall|e: Seq<char>| #[trigger] nv.contains(e) <==> old_v.contains(e) || e == x@ by {
            if nv.contains(e) {
                let w = choose|w: int| 0 <= w < nv.len() && nv[w] == e;
                if w < k {
                    assert(old_v[w] == e);
                } else if w > k {
                    assert(old_v[w - 1] == e);
                }
            }
            if old_v.contains(e) {
                let w = choose|w: int| 0 <= w < old_v.len() && old_v[w] == e;
                if w < k {
                    assert(nv[w] == e);
                } else {
                    assert(nv[w + 1] == e);
                }
            }
            if e == x@ {
                assert(nv[k as int] == e);
            }
        }
    }
}

/// The file extensions FFmpeg's `-formats` listing declares, reading its standard output and
/// then its standard error (see [`format_extensions`]), as a set: in increasing order, each
/// once.
pub fn supported_extensions(stdout: &str, stderr: &str) -> (r: Vec<String>)
    ensures
        sorted_texts(string_views(r@)),
        forall|e: Seq<char>| #[trigger] string_views(r@).contains(e) <==> format_extensions(lines(stdout@) + lines(stderr@)).contains(e),
{
    let all = declared_extensions(stdout, stderr);
    let ghost av = all@.map_values(|e: String| e@);
    let mut r: Vec<String> = Vec::new();
    let mut i: usize = 0;
    while i < all.len()
        invariant
            av == all@.map_values(|e: String| e@),
            i <= all@.len(),
            sorted_texts(string_views(r@)),
            forall|e: Seq<char>| #[trigger] string_views(r@).contains(e) <==> av.take(i as int).contains(e),
        decreases all@.len() - i,
    {
        insert_text(&mut r, &all[i]);
        proof {
            let before = av.take(i as int);
            let after = av.take(i + 1);
            assert(after =~= before.push(all@[i as int]@));
            assert forall|e: Seq<char>| #[trigger] string_views(r@).contains(e) <==> after.contains(e) by {
                if before.contains(e) {
                    let w = choose|w: int| 0 <= w < before.len() && before[w] == e;
                    assert(after[w] == e);
                }
                if after.contains(e) {
                    let w = choose|w: int| 0 <= w < after.len() && after[w] == e;
                    if w < i {
                        assert(before[w] == e);
                    }
                }
                if e == all@[i as int]@ {
                    assert(after[i as int] == e);
                }
            }
        }
        i += 1;
    }
    assert(av.take(all@.len() as int) =~= av);
    r
}

/// Whether `char::is_numeric` holds of a character.
pub uninterp spec fn numeric(c: char) -> bool;

/// `char::is_numeric`: whether a character has a Unicode numeric general category. The
/// contract names the answer ([`numeric`]) and states that ASCII digits have it; the Unicode
/// tables are not stated.
#[verifier::external_body]
fn is_numeric(c: char) -> (r: bool)
    ensures
        r == numeric(c),
        '0' <= c <= '9' ==> r,
{
    c.is_numeric()
}

/// Whether a word of ImageMagick's image information looks like a size: it holds an `x`, and
/// otherwise only numeric characters.
pub open spec fn size_like(w: Seq<char>) -> bool {
    w.contains('x') && forall|i: int| 0 <= i < w.len() ==> numeric(#[trigger] w[i]) || w[i] == 'x'
}

/// Index of the first size-like word at or after `i`.
pub open spec fn first_size_word(ws: Seq<Seq<char>>, i: int) -> Option<int>
    decreases ws.len() - i,
{
    if i < 0 || i >= ws.len() {
        None
    } else if size_like(ws[i]) {
        Some(i)
    } else {
        first_size_word(ws, i + 1)
    }
}

/// The pieces that read as `u32`, in order.
pub open spec fn readable_u32s(ps: Seq<Seq<char>>) -> Seq<u32>
    decreases ps.len(),
{
    if ps.len() == 0 {
        seq![]
    } else {
        match crate::text::parse_unsigned(ps.last(), u32::MAX as int) {
            Some(n) => readable_u32s(ps.drop_last()).push(n as u32),
            None => readable_u32s(ps.drop_last()),
        }
    }
}

/// The size of an image in ImageMagick's information on it: the first size-like word, split at
/// `x`, when exactly two of its pieces read as numbers (width, then height).
pub open spec fn spec_magick_dimensions(info: Seq<char>) -> Option<(u32, u32)> {
    let ws = words(info);
    let word = match first_size_word(ws, 0) {
        Some(i) => ws[i],
        None => seq![],
    };
    let ns = readable_u32s(split_char(word, 'x'));
    if ns.len() == 2 {
        Some((ns[0], ns[1]))
    } else {
        None
    }
}

fn size_like_exec(w: &[char]) -> (r: bool)
    ensures
        r == size_like(w@),
{
    let has_x = contains_char(w, 'x');
    let mut i: usize = 0;
    while i < w.len()
        invariant
            i <= w@.len(),
            forall|j: int| 0 <= j < i ==> numeric(#[trigger] w@[j]) || w@[j] == 'x',
        decreases w@.len() - i,
    {
        if !(is_numeric(w[i]) || w[i] == 'x') {
            return false;
        }
        i += 1;
    }
    has_x
}

/// The size of an image in ImageMagick's information on it (see [`spec_magick_dimensions`]).
pub fn magick_dimensions(info: &str) -> (r: Option<(u32, u32)>)
    ensures
        r == spec_magick_dimensions(info@),
{
    let t = chars_of(info);
    let ws = words_of(t.as_slice());
    let ghost wv = words(info@);
    let mut word: Vec<char> = Vec::new();
    let mut i: usize = 0;
    while i < ws.len()
        invariant_except_break
            word@.len() == 0,
            first_size_word(wv, 0) == first_size_word(wv, i as int),
        invariant
            wv == words(info@),
            ws@.map_values(|w: Vec<char>| w@) == wv,
            i <= ws@.len(),
        ensures
            word@ == match first_size_word(wv, 0) {
                Some(j) => wv[j],
                None => seq![],
            },
        decreases ws@.len() - i,
    {
        assert(ws@[i as int]@ == wv[i as int]);
        if size_like_exec(ws[i].as_slice()) {
            word = ws[i].clone();
            break;
        }
        i += 1;
    }
    let pieces = split_chars(word.as_slice(), 'x');
    let ghost pv = split_char(word@, 'x');
    let mut ns: Vec<u32> = Vec::new();
    let mut k: usize = 0;
    while k < pieces.len()
        invariant
            pieces@.len() == pv.len(),
            forall|j: int| 0 <= j < pieces@.len() ==> #[trigger] pieces@[j]@ == pv[j],
            k <= pieces@.len(),
            ns@ == readable_u32s(pv.take(k as int)),
        decreases pieces@.len() - k,
    {
        assert(pv.take(k + 1).drop_last() =~= pv.take(k as int));
        match crate::text::parse_u32(pieces[k].as_slice()) {
            Some(n) => ns.push(n),
            None => {},
        }
        k += 1;
    }
    assert(pv.take(pieces@.len() as int) =~= pv);
    if ns.len() == 2 {
        Some((ns[0], ns[1]))
    } else {
        None
    }
}

} // verus!
