//! Templates and daily notes.
//!
//! A template is an ordinary Markdown file in the vault's template folder. The
//! only thing that makes it a template is that `{{variables}}` in it are
//! expanded when it is inserted.
//!
//! The variable set is fixed and small. A template language that can call into
//! the app would be a scripting surface reachable by anything that can write a
//! file into the vault, and nothing should be able to act without the user
//! asking.
pub mod datefmt;

use vstd::prelude::*;
use crate::error::Result;
use crate::index::resolve::{less, seq_less};
use crate::strings::{
    all_ascii, ascii_lower_seq, chars_eq, find_char, find_char_in, find_seq, find_seq_from, is_ws, lemma_find_char,
    lemma_find_char_at, lemma_find_seq_from, lemma_trim_end_at, lemma_trim_end_len, lemma_trim_start_at,
    lemma_trim_start_len, lowercase, push_char, push_chars, push_str, str_to_string, string_of, to_chars, to_lowercase,
    trim, trim_end, trim_end_len, trim_range, trim_start, trim_start_len, trimmed,
};
use crate::templates::datefmt::{at, format_spec, parts_of, reading_of, DateParts};
use crate::vault::path::{
    extension_of, file_name_of, join_spec, parent_of, path_result_is, sanitize_segment, sanitize_spec, stem_of, VaultPath,
};
use crate::vault::settings::DailyNoteSettings;
use crate::markdown::scanner::latin_letter;

verus! {

/// What the expander knows about the note being created.
#[derive(Debug, Clone)]
pub struct TemplateContext {
    pub title: String,
    pub path: VaultPath,
    /// The clock's reading, in milliseconds since the Unix epoch.
    pub now_ms: i64,
    /// The local offset east of UTC.
    pub offset_seconds: i32,
}

impl TemplateContext {
    /// A context for a note called `title` at `path`, as of the clock reading
    /// `now_ms` in the local offset `offset_seconds`.
    pub fn new(title: &str, path: VaultPath, now_ms: i64, offset_seconds: i32) -> (r: TemplateContext)
        ensures
            r.title@ == title@,
            r.path@ == path@,
            r.now_ms == now_ms,
            r.offset_seconds == offset_seconds,
    {
        TemplateContext { title: str_to_string(title), path, now_ms, offset_seconds }
    }
}

const MILLIS_PER_DAY: i64 = 86_400_000;

/// The clock reading can move a day either way without leaving `i64`.
pub open spec fn adjacent_days_fit(now_ms: int) -> bool {
    i64::MIN + 86_400_000 <= now_ms <= i64::MAX - 86_400_000
}

/// The calendar reading `days` days from `now_ms`.
pub open spec fn reading_on(now_ms: int, offset_seconds: i32, days: int) -> DateParts {
    parts_of(reading_of(((now_ms + days * 86_400_000) * 1_000_000) as i128, offset_seconds))
}

pub open spec fn or_default(argument: Option<Seq<char>>, default: Seq<char>) -> Seq<char> {
    match argument {
        Some(f) => f,
        None => default,
    }
}

/// The key of a variable: everything before the first `:`.
pub open spec fn variable_key(name: Seq<char>) -> Seq<char> {
    match find_char(name, ':') {
        Some(k) => name.take(k),
        None => name,
    }
}

/// Its format argument, trimmed, when it has one.
pub open spec fn variable_argument(name: Seq<char>) -> Option<Seq<char>> {
    match find_char(name, ':') {
        Some(k) => Some(trim(name.skip(k + 1))),
        None => None,
    }
}

/// A key in lower case (`str::to_lowercase`, which maps ASCII text letter by
/// letter).
pub open spec fn key_lowered(key: Seq<char>) -> Seq<char> {
    if all_ascii(key) {
        ascii_lower_seq(key)
    } else {
        lowercase(key)
    }
}

/// What the (trimmed) variable `name` expands to, if it is one the expander
/// knows. Keys are matched without regard to case.
///
/// ```text
/// {{title}}              the new note's title
/// {{path}}               its vault path
/// {{folder}}             the folder it is being created in
/// {{date}}               today, as YYYY-MM-DD
/// {{time}}               now, as HH:mm
/// {{datetime}}           both
/// {{date:FORMAT}}        today in a custom format
/// {{time:FORMAT}}        now in a custom format
/// {{yesterday}} {{tomorrow}}   adjacent days, as YYYY-MM-DD
/// ```
pub open spec fn variable_value(name: Seq<char>, ctx: TemplateContext) -> Option<Seq<char>> {
    let key = key_lowered(variable_key(name));
    let argument = variable_argument(name);
    let today = reading_on(ctx.now_ms as int, ctx.offset_seconds, 0);
    if key == "title"@ {
        Some(ctx.title@)
    } else if key == "path"@ {
        Some(ctx.path@)
    } else if key == "folder"@ {
        Some(parent_of(ctx.path@))
    } else if key == "date"@ {
        Some(format_spec(or_default(argument, "YYYY-MM-DD"@), today))
    } else if key == "time"@ {
        Some(format_spec(or_default(argument, "HH:mm"@), today))
    } else if key == "datetime"@ {
        Some(format_spec(or_default(argument, "YYYY-MM-DD HH:mm"@), today))
    } else if key == "yesterday"@ {
        Some(format_spec(or_default(argument, "YYYY-MM-DD"@), reading_on(ctx.now_ms as int, ctx.offset_seconds, -1)))
    } else if key == "tomorrow"@ {
        Some(format_spec(or_default(argument, "YYYY-MM-DD"@), reading_on(ctx.now_ms as int, ctx.offset_seconds, 1)))
    } else {
        None
    }
}

pub open spec fn closing_braces() -> Seq<char> {
    seq!['}', '}']
}

/// The expansion of `t` from position `i` on.
pub open spec fn expand_from(t: Seq<char>, i: int, ctx: TemplateContext) -> Seq<char>
    decreases t.len() - i,
{
    if i < 0 || i >= t.len() {
        Seq::<char>::empty()
    } else if i + 1 < t.len() && t[i] == '{' && t[i + 1] == '{' {
        match find_seq_from(t, i + 2, t.len() as int, closing_braces()) {
            Some(c) => {
                proof {
                    lemma_find_seq_from(t, i + 2, t.len() as int, closing_braces());
                }
                let written = match variable_value(trim(t.subrange(i + 2, c)), ctx) {
                    Some(v) => v,
                    None => t.subrange(i, c + 2),
                };
                written + expand_from(t, c + 2, ctx)
            },
            None => seq![t[i]] + expand_from(t, i + 1, ctx),
        }
    } else {
        seq![t[i]] + expand_from(t, i + 1, ctx)
    }
}

/// What `expand` gives for the template `t`.
pub open spec fn expand_spec(t: Seq<char>, ctx: TemplateContext) -> Seq<char> {
    expand_from(t, 0, ctx)
}

fn is_key(key: &String, word: &str) -> (b: bool)
    ensures
        b == (key@ == word@),
{
    chars_eq(&to_chars(key.as_str()), &to_chars(word))
}

/// Format the reading `days` days from the context's clock.
fn format_on(argument: &Option<String>, default: &str, ctx: &TemplateContext, days: i64) -> (r: String)
    requires
        -1 <= days <= 1,
        adjacent_days_fit(ctx.now_ms as int),
    ensures
        r@ == format_spec(
            or_default(
                match argument {
                    Some(a) => Some(a@),
                    None => None,
                },
                default@,
            ),
            reading_on(ctx.now_ms as int, ctx.offset_seconds, days as int),
        ),
{
    let reading = at(ctx.now_ms + days * MILLIS_PER_DAY, ctx.offset_seconds);
    match argument {
        Some(a) => crate::templates::datefmt::format(a.as_str(), &reading),
        None => crate::templates::datefmt::format(default, &reading),
    }
}

/// Look up one (trimmed) variable.
fn substitute(name: &Vec<char>, ctx: &TemplateContext) -> (r: Option<String>)
    requires
        adjacent_days_fit(ctx.now_ms as int),
    ensures
        match variable_value(name@, *ctx) {
            Some(v) => r matches Some(s) && s@ == v,
            None => r is None,
        },
{
    let n = name.len();
    let colon = find_char_in(name, 0, n, ':');
    proof {
        assert(name@.subrange(0, n as int) =~= name@);
    }
    let (key, argument) = match colon {
        Some(k) => {
            let key = string_of(name, 0, k);
            let argument = trimmed(name, k + 1, n);
            proof {
                assert(key@ =~= name@.take(k as int));
                assert(name@.subrange(k + 1, n as int) =~= name@.skip(k + 1));
            }
            (key, Some(argument))
        },
        None => {
            let key = string_of(name, 0, n);
            (key, None)
        },
    };
    let low = to_lowercase(key.as_str());
    if is_key(&low, "title") {
        Some(ctx.title.clone())
    } else if is_key(&low, "path") {
        Some(str_to_string(ctx.path.as_str()))
    } else if is_key(&low, "folder") {
        Some(str_to_string(ctx.path.parent().as_str()))
    } else if is_key(&low, "date") {
        Some(format_on(&argument, "YYYY-MM-DD", ctx, 0))
    } else if is_key(&low, "time") {
        Some(format_on(&argument, "HH:mm", ctx, 0))
    } else if is_key(&low, "datetime") {
        Some(format_on(&argument, "YYYY-MM-DD HH:mm", ctx, 0))
    } else if is_key(&low, "yesterday") {
        Some(format_on(&argument, "YYYY-MM-DD", ctx, -1))
    } else if is_key(&low, "tomorrow") {
        Some(format_on(&argument, "YYYY-MM-DD", ctx, 1))
    } else {
        None
    }
}

/// Expand `{{variables}}` in a template (see `variable_value` for the set).
///
/// An unknown variable is left exactly as written, so a template containing
/// `{{mustache}}` for some other tool is not silently emptied, and a `{{`
/// that is never closed is ordinary text.
pub fn expand(template: &str, context: &TemplateContext) -> (r: String)
    requires
        adjacent_days_fit(context.now_ms as int),
    ensures
        r@ == expand_spec(template@, *context),
{
    let t = to_chars(template);
    let n = t.len();
    let close: Vec<char> = vec!['}', '}'];
    let ghost s = t@;
    let mut out = String::new();
    let mut index: usize = 0;
    assert(out@ + expand_from(s, 0, *context) =~= expand_from(s, 0, *context));
    while index < n
        invariant
            s == t@,
            n == s.len(),
            index <= n,
            close@ == closing_braces(),
            adjacent_days_fit(context.now_ms as int),
            out@ + expand_from(s, index as int, *context) == expand_from(s, 0, *context),
        decreases n - index,
    {
        if t[index] == '{' && index + 1 < n && t[index + 1] == '{' {
            let found = find_seq(&t, index + 2, n, &close);
            if let Some(c) = found {
                proof {
                    lemma_find_seq_from(s, index + 2, n as int, closing_braces());
                }
                let (a, b) = trim_range(&t, index + 2, c);
                let name = to_chars(string_of(&t, a, b).as_str());
                let ghost before = out@;
                match substitute(&name, context) {
                    Some(value) => push_str(&mut out, value.as_str()),
                    None => push_chars(&mut out, &t, index, c + 2),
                }
                assert(out@ + expand_from(s, c + 2, *context) =~= before + expand_from(s, index as int, *context));
                index = c + 2;
                continue;
            }
        }
        let ghost before = out@;
        push_char(&mut out, t[index]);
        assert(out@ + expand_from(s, index + 1, *context) =~= before + expand_from(s, index as int, *context));
        index = index + 1;
    }
    assert(out@ =~= out@ + expand_from(s, index as int, *context));
    out
}

/// Where the daily note `day_offset` days from the clock lives: the date in
/// the configured format, made a safe file name, with `.md`, in the
/// configured folder.
pub open spec fn daily_note_path_spec(
    settings: DailyNoteSettings,
    now_ms: int,
    offset_seconds: i32,
    day_offset: int,
) -> core::result::Result<Seq<char>, (Seq<char>, Seq<char>)> {
    let name = format_spec(settings.format@, reading_on(now_ms, offset_seconds, day_offset));
    join_spec(settings.folder@, sanitize_spec(name) + ".md"@)
}

/// Where today's daily note lives (`day_offset` moves to another day).
///
/// The format is user-supplied, so it can contain anything; it is sanitised
/// so that a bad format yields an odd file name rather than no note.
pub fn daily_note_path(settings: &DailyNoteSettings, now_ms: i64, offset_seconds: i32, day_offset: i64) -> (r: Result<
    VaultPath,
>)
    requires
        i64::MIN <= day_offset * 86_400_000 <= i64::MAX,
        i64::MIN <= now_ms + day_offset * 86_400_000 <= i64::MAX,
    ensures
        path_result_is(r, daily_note_path_spec(*settings, now_ms as int, offset_seconds, day_offset as int)),
{
    let reading = at(now_ms + day_offset * MILLIS_PER_DAY, offset_seconds);
    let name = crate::templates::datefmt::format(settings.format.as_str(), &reading);
    let mut file_name = sanitize_segment(name.as_str());
    let ghost safe = file_name@;
    push_str(&mut file_name, ".md");
    assert(file_name@ =~= safe + ".md"@);
    settings.folder.join(file_name.as_str())
}

/// The context a new daily note at `path` is expanded in: titled by its file
/// name's stem and dated `day_offset` days from the clock.
pub fn daily_note_context(path: &VaultPath, now_ms: i64, offset_seconds: i32, day_offset: i64) -> (r: TemplateContext)
    requires
        i64::MIN <= day_offset * 86_400_000 <= i64::MAX,
        i64::MIN <= now_ms + day_offset * 86_400_000 <= i64::MAX,
    ensures
        r.title@ == stem_of(file_name_of(path@)),
        r.path@ == path@,
        r.now_ms == now_ms + day_offset * 86_400_000,
        r.offset_seconds == offset_seconds,
{
    TemplateContext {
        title: str_to_string(path.stem()),
        path: path.clone(),
        now_ms: now_ms + day_offset * MILLIS_PER_DAY,
        offset_seconds,
    }
}

/// What a new daily note holds: its template expanded, when one is
/// configured and could be read, or else a heading with its title.
pub fn daily_note_contents(template: Option<&str>, context: &TemplateContext) -> (r: String)
    requires
        adjacent_days_fit(context.now_ms as int),
    ensures
        r@ == match template {
            Some(t) => expand_spec(t@, *context),
            None => "# "@ + context.title@ + "\n\n"@,
        },
{
    match template {
        Some(t) => expand(t, context),
        None => {
            let mut out = str_to_string("# ");
            push_str(&mut out, context.title.as_str());
            push_str(&mut out, "\n\n");
            out
        },
    }
}

/// A template the user can pick from.
#[derive(Debug, Clone)]
pub struct TemplateInfo {
    pub path: VaultPath,
    pub name: String,
}

/// A folder entry (its path, and whether it is a folder) is a template when
/// it is a Markdown file.
pub open spec fn is_template(entry: (Seq<char>, bool)) -> bool {
    let ext = extension_of(file_name_of(entry.0));
    !entry.1 && (ext == Some("md"@) || ext == Some("markdown"@))
}

/// The templates among the entries, in listing order, as (path, name).
pub open spec fn template_entries(entries: Seq<(Seq<char>, bool)>) -> Seq<(Seq<char>, Seq<char>)>
    decreases entries.len(),
{
    if entries.len() == 0 {
        Seq::<(Seq<char>, Seq<char>)>::empty()
    } else {
        let rest = template_entries(entries.drop_last());
        let e = entries.last();
        if is_template(e) {
            rest.push((e.0, stem_of(file_name_of(e.0))))
        } else {
            rest
        }
    }
}

/// Insert `t` after every entry whose name, case-folded, does not sort
/// after its own.
pub open spec fn insert_by_name(
    sorted: Seq<(Seq<char>, Seq<char>)>,
    t: (Seq<char>, Seq<char>),
) -> Seq<(Seq<char>, Seq<char>)>
    decreases sorted.len(),
{
    if sorted.len() == 0 {
        seq![t]
    } else if !seq_less(lowercase(t.1), lowercase(sorted.last().1)) {
        sorted.push(t)
    } else {
        insert_by_name(sorted.drop_last(), t).push(sorted.last())
    }
}

/// A stable sort by case-folded name.
pub open spec fn sort_by_name(ts: Seq<(Seq<char>, Seq<char>)>) -> Seq<(Seq<char>, Seq<char>)>
    decreases ts.len(),
{
    if ts.len() == 0 {
        ts
    } else {
        insert_by_name(sort_by_name(ts.drop_last()), ts.last())
    }
}

pub open spec fn entries_view(es: Seq<(VaultPath, bool)>) -> Seq<(Seq<char>, bool)> {
    es.map_values(|e: (VaultPath, bool)| (e.0@, e.1))
}

pub open spec fn infos_view(ts: Seq<TemplateInfo>) -> Seq<(Seq<char>, Seq<char>)> {
    ts.map_values(|t: TemplateInfo| (t.path@, t.name@))
}

proof fn lemma_insert_by_name_at(sorted: Seq<(Seq<char>, Seq<char>)>, t: (Seq<char>, Seq<char>), p: int)
    requires
        0 <= p <= sorted.len(),
        forall|j: int| p <= j < sorted.len() ==> seq_less(lowercase(t.1), lowercase((#[trigger] sorted[j]).1)),
        p > 0 ==> !seq_less(lowercase(t.1), lowercase(sorted[p - 1].1)),
    ensures
        insert_by_name(sorted, t) == sorted.take(p).push(t) + sorted.skip(p),
    decreases sorted.len(),
{
    if sorted.len() == 0 {
        assert(sorted.take(p).push(t) + sorted.skip(p) =~= seq![t]);
    } else if p == sorted.len() {
        assert(sorted.take(p) =~= sorted);
        assert(sorted.take(p).push(t) + sorted.skip(p) =~= sorted.push(t));
    } else {
        lemma_insert_by_name_at(sorted.drop_last(), t, p);
        assert(sorted.drop_last().take(p) =~= sorted.take(p));
        assert(sorted.drop_last().skip(p).push(sorted.last()) =~= sorted.skip(p));
        assert((sorted.take(p).push(t) + sorted.drop_last().skip(p)).push(sorted.last())
            =~= sorted.take(p).push(t) + sorted.skip(p));
    }
}

fn is_word(s: &String, word: &str) -> (b: bool)
    ensures
        b == (s@ == word@),
{
    chars_eq(&to_chars(s.as_str()), &to_chars(word))
}

/// The templates among the entries of the template folder (each a path and
/// whether it is a folder): the Markdown files, named by their stems and
/// sorted by name without regard to case, ties kept in listing order.
pub fn templates_in(entries: &Vec<(VaultPath, bool)>) -> (r: Vec<TemplateInfo>)
    ensures
        infos_view(r@) == sort_by_name(template_entries(entries_view(entries@))),
{
    let ghost ev = entries_view(entries@);
    let mut out: Vec<TemplateInfo> = Vec::new();
    let mut keys: Vec<String> = Vec::new();
    let mut i: usize = 0;
    assert(ev.take(0) =~= Seq::<(Seq<char>, bool)>::empty());
    assert(infos_view(out@) =~= Seq::<(Seq<char>, Seq<char>)>::empty());
    while i < entries.len()
        invariant
            ev == entries_view(entries@),
            i <= entries@.len(),
            keys@.len() == out@.len(),
            forall|j: int| 0 <= j < out@.len() ==> (#[trigger] keys@[j])@ == lowercase(out@[j].name@),
            infos_view(out@) == sort_by_name(template_entries(ev.take(i as int))),
        decreases entries@.len() - i,
    {
        assert(ev.take(i + 1).drop_last() =~= ev.take(i as int));
        assert(ev[i as int] == (entries@[i as int].0@, entries@[i as int].1));
        let path = &entries[i].0;
        let is_markdown = match path.extension() {
            Some(e) => is_word(&e, "md") || is_word(&e, "markdown"),
            None => false,
        };
        let ghost te = template_entries(ev.take(i as int));
        assert(ev.take(i + 1).last() == ev[i as int]);
        assert(is_template(ev[i as int]) == (!entries[i as int].1 && is_markdown));
        if !entries[i].1 && is_markdown {
            let info = TemplateInfo { path: path.clone(), name: str_to_string(path.stem()) };
            let ghost t = (info.path@, info.name@);
            assert(template_entries(ev.take(i + 1)) == te.push(t));
            assert(te.push(t).drop_last() =~= te);
            assert(sort_by_name(te.push(t)) == insert_by_name(sort_by_name(te), t));
            let key = to_lowercase(info.name.as_str());
            let ghost sv = infos_view(out@);
            let mut p = out.len();
            while p > 0 && less(key.as_str(), keys[p - 1].as_str())
                invariant
                    p <= out@.len(),
                    keys@.len() == out@.len(),
                    sv == infos_view(out@),
                    key@ == lowercase(info.name@),
                    forall|j: int| 0 <= j < out@.len() ==> (#[trigger] keys@[j])@ == lowercase(out@[j].name@),
                    forall|j: int| p <= j < out@.len() ==> seq_less(key@, (#[trigger] keys@[j])@),
                decreases p,
            {
                p = p - 1;
            }
            proof {
                assert forall|j: int| p <= j < sv.len() implies seq_less(
                    lowercase(info.name@),
                    lowercase((#[trigger] sv[j]).1),
                ) by {
                    assert(keys@[j]@ == lowercase(out@[j].name@));
                }
                if p > 0 {
                    assert(keys@[p - 1]@ == lowercase(out@[p - 1].name@));
                }
                lemma_insert_by_name_at(sv, (info.path@, info.name@), p as int);
            }
            let ghost old_keys = keys@;
            let ghost old_out = out@;
            out.insert(p, info);
            keys.insert(p, key);
            assert(infos_view(out@) =~= sv.take(p as int).push((info.path@, info.name@)) + sv.skip(p as int));
            assert forall|j: int| 0 <= j < out@.len() implies (#[trigger] keys@[j])@ == lowercase(out@[j].name@) by {
                if j < p {
                    assert(keys@[j] == old_keys[j] && out@[j] == old_out[j]);
                } else if j > p {
                    assert(keys@[j] == old_keys[j - 1] && out@[j] == old_out[j - 1]);
                }
            }
        } else {
            assert(template_entries(ev.take(i + 1)) == te);
        }
        i = i + 1;
    }
    assert(ev.take(i as int) =~= ev);
    out
}

// ---------------------------------------------------------------------------
// Laws.

/// No `{{` anywhere in the text.
pub open spec fn has_no_opening(t: Seq<char>) -> bool {
    forall|i: int| 0 <= i < t.len() - 1 ==> !(#[trigger] t[i] == '{' && t[i + 1] == '{')
}

proof fn lemma_plain_from(t: Seq<char>, i: int, ctx: TemplateContext)
    requires
        0 <= i <= t.len(),
        has_no_opening(t),
    ensures
        expand_from(t, i, ctx) == t.skip(i),
    decreases t.len() - i,
{
    if i < t.len() {
        lemma_plain_from(t, i + 1, ctx);
        if i + 1 < t.len() {
            assert(!(t[i] == '{' && t[i + 1] == '{'));
        }
        assert(t.skip(i) =~= seq![t[i]] + t.skip(i + 1));
    } else {
        assert(t.skip(i) =~= Seq::<char>::empty());
    }
}

/// Text without variables is copied as it is: expansion changes nothing
/// around the variables it knows.
pub proof fn law_text_without_variables_is_unchanged(t: Seq<char>, ctx: TemplateContext)
    requires
        has_no_opening(t),
    ensures
        expand_spec(t, ctx) == t,
{
    lemma_plain_from(t, 0, ctx);
    assert(t.skip(0) =~= t);
}

/// A variable the expander does not know is left exactly as written, so a
/// template meant for another tool is not emptied.
pub proof fn law_unknown_variable_is_left_as_written(name: Seq<char>, ctx: TemplateContext)
    requires
        forall|k: int| 0 <= k < name.len() ==> name[k] != '}',
        variable_value(trim(name), ctx) is None,
    ensures
        expand_spec(seq!['{', '{'] + name + seq!['}', '}'], ctx) == seq!['{', '{'] + name + seq!['}', '}'],
{
    let t = seq!['{', '{'] + name + seq!['}', '}'];
    let c: int = name.len() as int + 2;
    lemma_find_seq_from(t, 2, t.len() as int, closing_braces());
    assert(t.subrange(c, c + 2) =~= closing_braces());
    assert forall|j: int| 2 <= j < c implies #[trigger] t.subrange(j, j + 2) != closing_braces() by {
        assert(t[j] == name[j - 2]);
        assert(t.subrange(j, j + 2)[0] == t[j]);
    }
    assert(find_seq_from(t, 2, t.len() as int, closing_braces()) == Some(c)) by {
        match find_seq_from(t, 2, t.len() as int, closing_braces()) {
            Some(k) => {
                if k < c {
                    assert(t.subrange(k, k + 2) != closing_braces());
                } else if k > c {
                    assert(t.subrange(c, c + 2) == closing_braces());
                }
            },
            None => {
                assert(t.subrange(c, c + 2) == closing_braces());
            },
        }
    }
    assert(t.subrange(2, c) =~= name);
    assert(t.subrange(0, c + 2) =~= t);
    assert(expand_from(t, c + 2, ctx) =~= Seq::<char>::empty());
    assert(expand_from(t, 0, ctx) =~= t);
}

/// `{{name}}` alone, with no `}` in `name`, expands to what the variable
/// gives, or stays as written.
proof fn lemma_one_variable(name: Seq<char>, ctx: TemplateContext)
    requires
        forall|k: int| 0 <= k < name.len() ==> name[k] != '}',
    ensures
        expand_spec(seq!['{', '{'] + name + seq!['}', '}'], ctx) == (match variable_value(trim(name), ctx) {
            Some(v) => v,
            None => seq!['{', '{'] + name + seq!['}', '}'],
        }),
{
    let t = seq!['{', '{'] + name + seq!['}', '}'];
    let c: int = name.len() as int + 2;
    lemma_find_seq_from(t, 2, t.len() as int, closing_braces());
    assert(t.subrange(c, c + 2) =~= closing_braces());
    assert forall|j: int| 2 <= j < c implies #[trigger] t.subrange(j, j + 2) != closing_braces() by {
        assert(t[j] == name[j - 2]);
        assert(t.subrange(j, j + 2)[0] == t[j]);
    }
    assert(find_seq_from(t, 2, t.len() as int, closing_braces()) == Some(c)) by {
        match find_seq_from(t, 2, t.len() as int, closing_braces()) {
            Some(k) => {
                if k < c {
                    assert(t.subrange(k, k + 2) != closing_braces());
                } else if k > c {
                    assert(t.subrange(c, c + 2) == closing_braces());
                }
            },
            None => {
                assert(t.subrange(c, c + 2) == closing_braces());
            },
        }
    }
    assert(t.subrange(2, c) =~= name);
    assert(t.subrange(0, c + 2) =~= t);
    assert(expand_from(t, c + 2, ctx) =~= Seq::<char>::empty());
    assert(expand_from(t, 0, ctx) =~= (match variable_value(trim(name), ctx) {
        Some(v) => v,
        None => t,
    }) + Seq::<char>::empty());
}

/// Trimming `word:rest` trims only the end of `rest` when the word starts
/// with no space.
proof fn lemma_trim_after_word(w: Seq<char>, f: Seq<char>)
    requires
        w.len() > 0,
        forall|k: int| 0 <= k < w.len() ==> latin_letter(#[trigger] w[k]),
    ensures
        trim(w + seq![':'] + f) == w + seq![':'] + trim_end(f),
{
    let x = w + seq![':'] + f;
    assert(x[0] == w[0]);
    lemma_trim_start_at(x, 0);
    assert(trim_start(x) =~= x);
    lemma_trim_end_len(f);
    let b = trim_end_len(f) as int;
    let k = w.len() + 1 + b;
    assert forall|j: int| k <= j < x.len() implies is_ws(#[trigger] x[j]) by {
        assert(x[j] == f[j - w.len() - 1]);
    }
    if b > 0 {
        assert(x[k - 1] == f[b - 1]);
    } else {
        assert(x[k - 1] == ':');
    }
    lemma_trim_end_at(x, k);
    assert(x.take(k) =~= w + seq![':'] + f.take(b));
}

/// Trimming the end first changes nothing about a full trim.
proof fn lemma_trim_of_trimmed_end(f: Seq<char>)
    ensures
        trim(trim_end(f)) == trim(f),
{
    lemma_trim_start_len(f);
    lemma_trim_end_len(f);
    let a = trim_start_len(f) as int;
    let b = trim_end_len(f) as int;
    let g = trim_end(f);
    if a == f.len() {
        if b > 0 {
            assert(is_ws(f[b - 1]));
        }
        assert(g =~= Seq::<char>::empty());
        lemma_trim_start_len(g);
        lemma_trim_end_len(trim_start(g));
        assert(f.skip(a) =~= Seq::<char>::empty());
        lemma_trim_end_len(f.skip(a));
    } else {
        if b <= a {
            assert(is_ws(f[a]));
        }
        assert forall|j: int| 0 <= j < a implies is_ws(#[trigger] g[j]) by {
            assert(g[j] == f[j]);
        }
        assert(g[a] == f[a]);
        lemma_trim_start_at(g, a);
        let mid = f.subrange(a, b);
        assert(trim_start(g) =~= mid);
        assert(mid[b - a - 1] == f[b - 1]);
        lemma_trim_end_at(mid, b - a);
        assert(trim(g) =~= mid);
        let h = f.skip(a);
        assert forall|j: int| b - a <= j < h.len() implies is_ws(#[trigger] h[j]) by {
            assert(h[j] == f[a + j]);
        }
        assert(h[b - a - 1] == f[b - 1]);
        lemma_trim_end_at(h, b - a);
        assert(trim(f) =~= mid);
    }
}

/// The date-family variables and the day each reads, counted from today.
pub open spec fn date_variable(key: Seq<char>, days: int) -> bool {
    ||| key == "date"@ && days == 0
    ||| key == "time"@ && days == 0
    ||| key == "datetime"@ && days == 0
    ||| key == "yesterday"@ && days == -1
    ||| key == "tomorrow"@ && days == 1
}

proof fn lemma_date_keys(key: Seq<char>, days: int)
    requires
        date_variable(key, days),
    ensures
        key.len() > 0,
        forall|k: int| 0 <= k < key.len() ==> 'a' <= #[trigger] key[k] <= 'z',
        key != "title"@,
        key != "path"@,
        key != "folder"@,
        key == "date"@ <==> (key == "date"@ && days == 0),
        key == "time"@ <==> (key == "time"@ && days == 0),
        key == "datetime"@ <==> (key == "datetime"@ && days == 0),
        key == "yesterday"@ <==> (key == "yesterday"@ && days == -1),
        key == "tomorrow"@ <==> (key == "tomorrow"@ && days == 1),
{
    reveal_strlit("title");
    reveal_strlit("path");
    reveal_strlit("folder");
    reveal_strlit("date");
    reveal_strlit("time");
    reveal_strlit("datetime");
    reveal_strlit("yesterday");
    reveal_strlit("tomorrow");
    assert("date"@[0] != "path"@[0] && "date"@[0] != "time"@[0] && "time"@[0] != "path"@[0]);
    assert("datetime"@[0] != "tomorrow"@[0]);
    assert("folder"@.len() == 6);
    assert(key.len() != 6);
    assert forall|k: int| 0 <= k < key.len() implies 'a' <= #[trigger] key[k] <= 'z' by {
        if key == "yesterday"@ {
            assert(k == 0 || k == 1 || k == 2 || k == 3 || k == 4 || k == 5 || k == 6 || k == 7 || k == 8);
        } else if key == "tomorrow"@ || key == "datetime"@ {
            assert(k == 0 || k == 1 || k == 2 || k == 3 || k == 4 || k == 5 || k == 6 || k == 7);
        } else {
            assert(k == 0 || k == 1 || k == 2 || k == 3);
        }
    }
}

/// A key written in Latin letters, in lower case.
proof fn lemma_lowered_key(key: Seq<char>)
    requires
        forall|k: int| 0 <= k < key.len() ==> latin_letter(#[trigger] key[k]),
    ensures
        key_lowered(key) == ascii_lower_seq(key),
        forall|k: int| 0 <= k < key.len() ==> #[trigger] key[k] != ':' && key[k] != '}' && !is_ws(key[k]),
{
    assert(all_ascii(key));
}

/// A date-family variable with a `:FORMAT` argument is the date formatted
/// with that pattern (trimmed): `{{yesterday:F}}` is the reading one day
/// before now in the format `F`, and likewise `{{date:F}}`, `{{time:F}}`
/// and `{{datetime:F}}` today and `{{tomorrow:F}}` a day on, for every `F`
/// that does not close the variable early, and whatever the key's case.
pub proof fn law_a_date_variable_is_formatted_with_its_argument(
    key: Seq<char>,
    days: int,
    f: Seq<char>,
    ctx: TemplateContext,
)
    requires
        forall|k: int| 0 <= k < key.len() ==> latin_letter(#[trigger] key[k]),
        date_variable(ascii_lower_seq(key), days),
        forall|k: int| 0 <= k < f.len() ==> f[k] != '}',
    ensures
        expand_spec(seq!['{', '{'] + key + seq![':'] + f + seq!['}', '}'], ctx) == format_spec(
            trim(f),
            reading_on(ctx.now_ms as int, ctx.offset_seconds, days),
        ),
{
    let low = ascii_lower_seq(key);
    lemma_date_keys(low, days);
    lemma_lowered_key(key);
    let name = key + seq![':'] + f;
    assert forall|k: int| 0 <= k < name.len() implies name[k] != '}' by {
        if k < key.len() {
            assert(name[k] == key[k]);
        } else if k > key.len() {
            assert(name[k] == f[k - key.len() - 1]);
        }
    }
    assert(seq!['{', '{'] + name + seq!['}', '}'] =~= seq!['{', '{'] + key + seq![':'] + f + seq!['}', '}']);
    lemma_one_variable(name, ctx);
    lemma_trim_after_word(key, f);
    let m = key + seq![':'] + trim_end(f);
    assert(trim(name) == m);
    assert forall|j: int| 0 <= j < key.len() implies m[j] != ':' by {
        assert(m[j] == key[j]);
    }
    assert(m[key.len() as int] == ':');
    lemma_find_char_at(m, ':', key.len() as int);
    assert(m.take(key.len() as int) =~= key);
    assert(m.skip(key.len() as int + 1) =~= trim_end(f));
    lemma_trim_of_trimmed_end(f);
    assert(variable_argument(m) == Some(trim(f)));
    assert(variable_key(m) == key);
}

/// The pattern a date-family variable uses when it has no argument.
pub open spec fn default_date_format(key: Seq<char>) -> Seq<char> {
    if key == "time"@ {
        "HH:mm"@
    } else if key == "datetime"@ {
        "YYYY-MM-DD HH:mm"@
    } else {
        "YYYY-MM-DD"@
    }
}

/// Without an argument, `{{date}}`, `{{yesterday}}` and `{{tomorrow}}` are
/// the day as `YYYY-MM-DD`, `{{time}}` is `HH:mm` and `{{datetime}}` is
/// `YYYY-MM-DD HH:mm`, each read on its own day and whatever the key's case.
pub proof fn law_a_date_variable_without_argument_uses_its_default(key: Seq<char>, days: int, ctx: TemplateContext)
    requires
        forall|k: int| 0 <= k < key.len() ==> latin_letter(#[trigger] key[k]),
        date_variable(ascii_lower_seq(key), days),
    ensures
        expand_spec(seq!['{', '{'] + key + seq!['}', '}'], ctx) == format_spec(
            default_date_format(ascii_lower_seq(key)),
            reading_on(ctx.now_ms as int, ctx.offset_seconds, days),
        ),
{
    let low = ascii_lower_seq(key);
    lemma_date_keys(low, days);
    lemma_lowered_key(key);
    lemma_one_variable(key, ctx);
    assert(key.len() > 0);
    lemma_trim_start_at(key, 0);
    assert(trim_start(key) =~= key);
    lemma_trim_end_at(key, key.len() as int);
    assert(key.take(key.len() as int) =~= key);
    assert(trim(key) == key);
    lemma_find_char(key, ':');
    assert(variable_key(key) == key);
    assert(variable_argument(key) is None);
    reveal_strlit("time");
    reveal_strlit("datetime");
    reveal_strlit("date");
    reveal_strlit("yesterday");
    reveal_strlit("tomorrow");
    assert("date"@[0] != "time"@[0]);
    assert("datetime"@[0] != "tomorrow"@[0]);
    assert("datetime"@.len() != "time"@.len() && "yesterday"@.len() != "time"@.len() && "tomorrow"@.len() != "time"@.len());
    assert("date"@.len() != "datetime"@.len() && "yesterday"@.len() != "datetime"@.len());
    let today = reading_on(ctx.now_ms as int, ctx.offset_seconds, 0);
    if low == "time"@ {
        assert(variable_value(key, ctx) == Some(format_spec("HH:mm"@, today)));
    } else if low == "datetime"@ {
        assert(variable_value(key, ctx) == Some(format_spec("YYYY-MM-DD HH:mm"@, today)));
    } else if low == "date"@ {
        assert(variable_value(key, ctx) == Some(format_spec("YYYY-MM-DD"@, today)));
    } else if low == "yesterday"@ {
        assert(variable_value(key, ctx) == Some(format_spec("YYYY-MM-DD"@, reading_on(ctx.now_ms as int, ctx.offset_seconds, -1))));
    } else {
        assert(variable_value(key, ctx) == Some(format_spec("YYYY-MM-DD"@, reading_on(ctx.now_ms as int, ctx.offset_seconds, 1))));
    }
}

} // verus!
