//! The Markdown index of a library: a table of contents by group, then one
//! block of fields per entry.

use vstd::prelude::*;
use crate::entry::{EntryView, LibraryEntry};
use crate::library::{entry_views, insert_entry, insert_sorted, sort_spec};
use crate::text::{char_is_space, decimal_seq, is_space, push_char, push_decimal};

verus! {

/// The lowercase form of a text, as `str::to_lowercase` gives it.
pub uninterp spec fn lower_of(s: Seq<char>) -> Seq<char>;

/// Relies on `str::to_lowercase`: the Unicode lowercase mapping, which
/// depends on the characters alone.
#[verifier::external_body]
fn lowercase(s: &str) -> (r: String)
    ensures
        r@ == lower_of(s@),
{
    s.to_lowercase()
}

/// Punctuation that an anchor leaves out.
pub open spec fn is_anchor_punct(c: char) -> bool {
    c == '【' || c == '】' || c == '[' || c == ']' || c == '(' || c == ')' || c == '（' || c == '）'
        || c == '：' || c == ':' || c == '、' || c == ',' || c == '，' || c == '。' || c == '!'
        || c == '！' || c == '?' || c == '？' || c == '"' || c == '\''
}

/// The anchor of an already lowercased heading: punctuation left out,
/// whitespace turned into `-`.
pub open spec fn anchor_of(s: Seq<char>) -> Seq<char>
    decreases s.len(),
{
    if s.len() == 0 {
        s
    } else if is_anchor_punct(s.last()) {
        anchor_of(s.drop_last())
    } else {
        anchor_of(s.drop_last()).push(if is_space(s.last()) { '-' } else { s.last() })
    }
}

/// Builds the anchor of a heading that is already lowercase.
pub fn anchor_from_lowercase(lower: &str) -> (r: String)
    ensures
        r@ == anchor_of(lower@),
{
    let n = lower.unicode_len();
    let mut out = String::new();
    let mut i: usize = 0;
    assert(lower@.subrange(0, 0) =~= Seq::<char>::empty());
    while i < n
        invariant
            n == lower@.len(),
            i <= n,
            out@ == anchor_of(lower@.subrange(0, i as int)),
        decreases n - i,
    {
        let c = lower.get_char(i);
        assert(lower@.subrange(0, i + 1).drop_last() =~= lower@.subrange(0, i as int));
        let punct = c == '【' || c == '】' || c == '[' || c == ']' || c == '(' || c == ')' || c
            == '（' || c == '）' || c == '：' || c == ':' || c == '、' || c == ',' || c == '，'
            || c == '。' || c == '!' || c == '！' || c == '?' || c == '？' || c == '"' || c == '\'';
        if !punct {
            let d = if char_is_space(c) { '-' } else { c };
            push_char(&mut out, d);
        }
        i = i + 1;
    }
    assert(lower@.subrange(0, n as int) =~= lower@);
    out
}

/// The anchor that a Markdown renderer gives a heading.
pub fn markdown_anchor(text: &str) -> (r: String)
    ensures
        r@ == anchor_of(lower_of(text@)),
{
    let lower = lowercase(text);
    anchor_from_lowercase(lower.as_str())
}

/// How an episode count reads: the count when positive, "unknown" when
/// zero, "not finished" when negative.
pub open spec fn episodes_text(value: i64) -> Seq<char> {
    if value > 0 {
        decimal_seq(value as nat)
    } else if value == 0 {
        "未知"@
    } else {
        "未完结"@
    }
}

/// Writes an episode count for the index.
pub fn format_episodes(value: i64) -> (r: String)
    ensures
        r@ == episodes_text(value),
{
    if value > 0 {
        let mut out = String::new();
        push_decimal(&mut out, value as u64);
        assert(out@ =~= decimal_seq(value as nat));
        out
    } else if value == 0 {
        String::from_str("未知")
    } else {
        String::from_str("未完结")
    }
}

/// A field's text, or "unknown" when it is empty.
pub open spec fn or_unknown(s: Seq<char>) -> Seq<char> {
    if s.len() == 0 {
        "未知"@
    } else {
        s
    }
}

/// Whether item `i` of the ordered list `s` opens a new group.
pub open spec fn starts_group(s: Seq<EntryView>, i: int) -> bool {
    i == 0 || s[i].group != s[i - 1].group
}

/// A link line of the table of contents.
pub open spec fn toc_link(indent: Seq<char>, label: Seq<char>) -> Seq<char> {
    indent + "- ["@ + label + "](#"@ + anchor_of(lower_of(label)) + ")"@
}

/// The lines of the table of contents for item `i` of `s`.
pub open spec fn toc_item_lines(s: Seq<EntryView>, i: int) -> Seq<Seq<char>> {
    (if starts_group(s, i) {
        seq![toc_link("    "@, s[i].group)]
    } else {
        Seq::empty()
    }) + (if s[i].title != s[i].group {
        seq![toc_link("      "@, s[i].title)]
    } else {
        Seq::empty()
    })
}

/// The lines of the block of item `i` of `s`.
pub open spec fn body_item_lines(s: Seq<EntryView>, i: int) -> Seq<Seq<char>> {
    let e = s[i];
    (if starts_group(s, i) {
        seq!["### "@ + e.group, Seq::empty()]
    } else {
        Seq::empty()
    }) + (if e.title != e.group {
        seq!["#### "@ + e.title]
    } else {
        Seq::empty()
    }) + seq![
        "```"@,
        "文件夹名:"@ + e.folder_name,
        Seq::empty(),
        "字幕组:"@ + or_unknown(e.fansub),
        Seq::empty(),
        "字幕形式:"@ + or_unknown(e.subtitle_type),
        Seq::empty(),
        "集数:"@ + episodes_text(e.episodes),
        Seq::empty(),
        "画质:"@ + or_unknown(e.quality),
    ] + (if e.note.len() > 0 {
        seq![Seq::empty(), "备注:"@ + e.note]
    } else {
        Seq::empty()
    }) + seq!["```"@, Seq::empty()]
}

/// The table of contents lines of the first `k` items of `s`.
pub open spec fn toc_lines(s: Seq<EntryView>, k: int) -> Seq<Seq<char>>
    decreases k,
{
    if k <= 0 {
        Seq::empty()
    } else {
        toc_lines(s, k - 1) + toc_item_lines(s, k - 1)
    }
}

/// The block lines of the first `k` items of `s`.
pub open spec fn body_lines(s: Seq<EntryView>, k: int) -> Seq<Seq<char>>
    decreases k,
{
    if k <= 0 {
        Seq::empty()
    } else {
        body_lines(s, k - 1) + body_item_lines(s, k - 1)
    }
}

/// The title lines of the index.
pub open spec fn header_lines() -> Seq<Seq<char>> {
    seq![
        "# 视频信息"@,
        Seq::empty(),
        "## 目录"@,
        Seq::empty(),
        "- [视频信息](#视频信息)"@,
        "  - [目录](#目录)"@,
    ]
}

/// All lines of the index of the entries `s`, once ordered by group and
/// title.
pub open spec fn index_lines(s: Seq<EntryView>) -> Seq<Seq<char>> {
    let o = sort_spec(s);
    header_lines() + toc_lines(o, o.len() as int) + seq![Seq::empty()] + body_lines(o, o.len() as int)
}

/// Lines joined with line breaks.
pub open spec fn join_lines(ls: Seq<Seq<char>>) -> Seq<char>
    decreases ls.len(),
{
    if ls.len() == 0 {
        Seq::empty()
    } else if ls.len() == 1 {
        ls[0]
    } else {
        join_lines(ls.drop_last()) + seq!['\n'] + ls.last()
    }
}

/// The views of a list of texts.
pub open spec fn text_views(v: Seq<String>) -> Seq<Seq<char>> {
    v.map_values(|s: String| s@)
}

fn copy_entry(e: &LibraryEntry) -> (r: LibraryEntry)
    ensures
        r@ == e@,
{
    LibraryEntry {
        id: e.id.clone(),
        title: e.title.clone(),
        fansub: e.fansub.clone(),
        subtitle_type: e.subtitle_type.clone(),
        episodes: e.episodes,
        quality: e.quality.clone(),
        note: e.note.clone(),
        path: e.path.clone(),
        folder_name: e.folder_name.clone(),
        group: e.group.clone(),
        relative_dir: e.relative_dir.clone(),
        last_played_path: e.last_played_path.clone(),
        last_played_name: e.last_played_name.clone(),
        last_played_at: e.last_played_at,
    }
}

/// Copies of `entries`, ordered by group, then title.
fn sorted_copies(entries: &[LibraryEntry]) -> (r: Vec<LibraryEntry>)
    ensures
        entry_views(r@) == sort_spec(entry_views(entries@)),
{
    let mut out: Vec<LibraryEntry> = Vec::new();
    let mut i: usize = 0;
    assert(entry_views(entries@).subrange(0, 0) =~= Seq::<EntryView>::empty());
    assert(entry_views(out@) =~= Seq::<EntryView>::empty());
    while i < entries.len()
        invariant
            i <= entries@.len(),
            entry_views(out@) == sort_spec(entry_views(entries@).subrange(0, i as int)),
        decreases entries@.len() - i,
    {
        let e = copy_entry(&entries[i]);
        assert(entry_views(entries@).subrange(0, i + 1).drop_last() =~= entry_views(
            entries@,
        ).subrange(0, i as int));
        insert_entry(&mut out, e);
        i = i + 1;
    }
    assert(entry_views(entries@).subrange(0, entries@.len() as int) =~= entry_views(entries@));
    out
}

/// `a` followed by `b`.
fn concat(a: &str, b: &str) -> (r: String)
    ensures
        r@ == a@ + b@,
{
    let mut r = String::from_str(a);
    r.append(b);
    r
}

/// A link line of the table of contents.
fn toc_link_line(indent: &str, label: &String) -> (r: String)
    ensures
        r@ == toc_link(indent@, label@),
{
    proof {
        reveal_strlit("- [");
        reveal_strlit("](#");
        reveal_strlit(")");
    }
    let mut r = concat(indent, "- [");
    r.append(label.as_str());
    r.append("](#");
    let anchor = markdown_anchor(label.as_str());
    r.append(anchor.as_str());
    r.append(")");
    r
}

/// Appends `more` to `lines`.
fn push_lines(lines: &mut Vec<String>, more: Vec<String>)
    ensures
        text_views(final(lines)@) == text_views(old(lines)@) + text_views(more@),
{
    let ghost m = more@;
    let mut more = more;
    lines.append(&mut more);
    assert(text_views(lines@) =~= text_views(old(lines)@) + text_views(m));
}

/// The table of contents lines of item `i` of `s`.
fn toc_item(s: &Vec<LibraryEntry>, i: usize) -> (r: Vec<String>)
    requires
        i < s@.len(),
    ensures
        text_views(r@) == toc_item_lines(entry_views(s@), i as int),
{
    let ghost v = entry_views(s@);
    let mut r: Vec<String> = Vec::new();
    let e = &s[i];
    let starts = i == 0 || !(e.group == s[i - 1].group);
    proof {
        reveal_strlit("    ");
        reveal_strlit("      ");
    }
    if starts {
        r.push(toc_link_line("    ", &e.group));
    }
    if !(e.title == e.group) {
        r.push(toc_link_line("      ", &e.title));
    }
    assert(text_views(r@) =~= toc_item_lines(v, i as int));
    r
}

/// A field line: its label, then the field, or "unknown" when it is empty.
fn field_or_unknown(label: &str, value: &String) -> (r: String)
    ensures
        r@ == label@ + or_unknown(value@),
{
    if value.unicode_len() == 0 {
        concat(label, "未知")
    } else {
        concat(label, value.as_str())
    }
}

/// The block lines of item `i` of `s`.
fn body_item(s: &Vec<LibraryEntry>, i: usize) -> (r: Vec<String>)
    requires
        i < s@.len(),
    ensures
        text_views(r@) == body_item_lines(entry_views(s@), i as int),
{
    let ghost v = entry_views(s@);
    let e = &s[i];
    let starts = i == 0 || !(e.group == s[i - 1].group);
    let mut head: Vec<String> = Vec::new();
    if starts {
        head.push(concat("### ", e.group.as_str()));
        head.push(String::new());
    }
    if !(e.title == e.group) {
        head.push(concat("#### ", e.title.as_str()));
    }
    let mut fields: Vec<String> = Vec::new();
    fields.push(String::from_str("```"));
    fields.push(concat("文件夹名:", e.folder_name.as_str()));
    fields.push(String::new());
    fields.push(field_or_unknown("字幕组:", &e.fansub));
    fields.push(String::new());
    fields.push(field_or_unknown("字幕形式:", &e.subtitle_type));
    fields.push(String::new());
    let episodes = format_episodes(e.episodes);
    fields.push(concat("集数:", episodes.as_str()));
    fields.push(String::new());
    fields.push(field_or_unknown("画质:", &e.quality));
    let mut note: Vec<String> = Vec::new();
    if e.note.unicode_len() > 0 {
        note.push(String::new());
        note.push(concat("备注:", e.note.as_str()));
    }
    let mut tail: Vec<String> = Vec::new();
    tail.push(String::from_str("```"));
    tail.push(String::new());
    let ghost h = text_views(head@);
    let ghost f = text_views(fields@);
    let ghost n = text_views(note@);
    let ghost t = text_views(tail@);
    let mut r = head;
    push_lines(&mut r, fields);
    push_lines(&mut r, note);
    push_lines(&mut r, tail);
    assert(h =~= (if starts_group(v, i as int) {
        seq!["### "@ + v[i as int].group, Seq::<char>::empty()]
    } else {
        Seq::empty()
    }) + (if v[i as int].title != v[i as int].group {
        seq!["#### "@ + v[i as int].title]
    } else {
        Seq::empty()
    }));
    assert(t =~= seq!["```"@, Seq::<char>::empty()]);
    assert(text_views(r@) =~= body_item_lines(v, i as int));
    r
}

/// Joins lines with line breaks.
fn join_with_breaks(lines: &Vec<String>) -> (r: String)
    ensures
        r@ == join_lines(text_views(lines@)),
{
    let ghost ls = text_views(lines@);
    let mut out = String::new();
    let mut i: usize = 0;
    assert(ls.subrange(0, 0) =~= Seq::<Seq<char>>::empty());
    while i < lines.len()
        invariant
            i <= lines@.len(),
            ls == text_views(lines@),
            out@ == join_lines(ls.subrange(0, i as int)),
        decreases lines@.len() - i,
    {
        assert(ls.subrange(0, i + 1).drop_last() =~= ls.subrange(0, i as int));
        if i > 0 {
            push_char(&mut out, '\n');
        } else {
            assert(out@ =~= Seq::<char>::empty());
        }
        out.append(lines[i].as_str());
        i = i + 1;
    }
    assert(ls.subrange(0, lines@.len() as int) =~= ls);
    out
}

/// Writes the Markdown index of `entries`: a title, a table of contents
/// linking each group (ordered by name) and each entry whose title differs
/// from its group's, then for each group its heading and, for each entry
/// ordered by title, a block of its fields.
pub fn build_video_index_markdown(entries: &[LibraryEntry]) -> (r: String)
    ensures
        r@ == join_lines(index_lines(entry_views(entries@))),
{
    let sorted = sorted_copies(entries);
    let ghost o = entry_views(sorted@);
    let mut lines: Vec<String> = Vec::new();
    lines.push(String::from_str("# 视频信息"));
    lines.push(String::new());
    lines.push(String::from_str("## 目录"));
    lines.push(String::new());
    lines.push(String::from_str("- [视频信息](#视频信息)"));
    lines.push(String::from_str("  - [目录](#目录)"));
    assert(text_views(lines@) =~= header_lines());
    let mut i: usize = 0;
    while i < sorted.len()
        invariant
            i <= sorted@.len(),
            o == entry_views(sorted@),
            text_views(lines@) == header_lines() + toc_lines(o, i as int),
        decreases sorted@.len() - i,
    {
        let more = toc_item(&sorted, i);
        push_lines(&mut lines, more);
        assert(header_lines() + toc_lines(o, i + 1) =~= header_lines() + toc_lines(o, i as int)
            + toc_item_lines(o, i as int));
        i = i + 1;
    }
    lines.push(String::new());
    let ghost before_body = text_views(lines@);
    assert(before_body =~= header_lines() + toc_lines(o, o.len() as int) + seq![Seq::<char>::empty()]);
    let mut j: usize = 0;
    assert(before_body + body_lines(o, 0) =~= before_body);
    while j < sorted.len()
        invariant
            j <= sorted@.len(),
            o == entry_views(sorted@),
            text_views(lines@) == before_body + body_lines(o, j as int),
        decreases sorted@.len() - j,
    {
        let more = body_item(&sorted, j);
        push_lines(&mut lines, more);
        assert(before_body + body_lines(o, j + 1) =~= before_body + body_lines(o, j as int)
            + body_item_lines(o, j as int));
        j = j + 1;
    }
    join_with_breaks(&lines)
}

} // verus!
