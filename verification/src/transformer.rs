//! Rule actions: the new path of a file under a rename, move or copy, with
//! templates such as `{filename}` and `{seq}` expanded.
use vstd::prelude::*;
use crate::matcher::parent_name_of;
use crate::models::{Action, JsonValue, RenameMode, RenameParams, RouteParams};
use crate::paths::{stem_of_name, extension_of, file_name_of, file_stem_of, join_chars_on, join_path_on, parent_of, split_name, ext_or_empty, file_name_chars, is_sep, name_or_empty, name_parts, parent_chars, split_parts, stem_or_empty};
use crate::text::{
    digit_char, chars_of, concat_chars, copy_chars, decimal, decimal_chars, matches_at, occurs_at, string_of, trim, trim_by, trim_ws,
    trimmed, utf8_width,
};

verus! {

// ------------------------------------------------------------- replacing

/// `s` from index `i` on, with every occurrence of a non-empty `p`, found left
/// to right without overlap, replaced by `r`.
pub open spec fn replaced_from(s: Seq<char>, p: Seq<char>, r: Seq<char>, i: int) -> Seq<char>
    decreases s.len() + 1 - i,
{
    if i < 0 || i >= s.len() || p.len() == 0 {
        Seq::empty()
    } else if occurs_at(s, p, i) {
        r + replaced_from(s, p, r, i + p.len())
    } else {
        seq![s[i]] + replaced_from(s, p, r, i + 1)
    }
}

/// `r` around and between every character of `s`.
pub open spec fn interleaved(s: Seq<char>, r: Seq<char>) -> Seq<char>
    decreases s.len(),
{
    if s.len() == 0 { r } else { interleaved(s.drop_last(), r) + seq![s.last()] + r }
}

/// `str::replace`: every occurrence of `p` replaced by `r`; an empty `p`
/// occurs before every character and at the end.
pub open spec fn replaced(s: Seq<char>, p: Seq<char>, r: Seq<char>) -> Seq<char> {
    if p.len() == 0 { interleaved(s, r) } else { replaced_from(s, p, r, 0) }
}

fn append(out: &mut Vec<char>, x: &Vec<char>)
    ensures
        final(out)@ == old(out)@ + x@,
{
    let mut i: usize = 0;
    let ghost o = out@;
    while i < x.len()
        invariant
            i <= x.len(),
            out@ == o + x@.take(i as int),
        decreases x.len() - i,
    {
        out.push(x[i]);
        i = i + 1;
        assert(out@ =~= o + x@.take(i as int));
    }
    assert(x@.take(x.len() as int) =~= x@);
}

pub fn replace_all(s: &Vec<char>, p: &Vec<char>, r: &Vec<char>) -> (out: Vec<char>)
    ensures
        out@ == replaced(s@, p@, r@),
{
    let mut out: Vec<char> = Vec::new();
    if p.len() == 0 {
        let mut i: usize = 0;
        append(&mut out, r);
        assert(out@ =~= interleaved(s@.take(0), r@));
        while i < s.len()
            invariant
                i <= s.len(),
                out@ == interleaved(s@.take(i as int), r@),
            decreases s.len() - i,
        {
            assert(s@.take(i + 1).drop_last() =~= s@.take(i as int));
            out.push(s[i]);
            append(&mut out, r);
            i = i + 1;
        }
        assert(s@.take(s.len() as int) =~= s@);
        return out;
    }
    let mut i: usize = 0;
    while i < s.len()
        invariant
            i <= s.len(),
            p@.len() > 0,
            out@ + replaced_from(s@, p@, r@, i as int) == replaced_from(s@, p@, r@, 0),
        decreases s.len() - i,
    {
        if matches_at(s, p, i) {
            let ghost o = out@;
            append(&mut out, r);
            assert(out@ + replaced_from(s@, p@, r@, i + p@.len()) =~= o + replaced_from(s@, p@, r@, i as int));
            i = i + p.len();
        } else {
            let ghost o = out@;
            out.push(s[i]);
            assert(out@ + replaced_from(s@, p@, r@, i + 1) =~= o + replaced_from(s@, p@, r@, i as int));
            i = i + 1;
        }
    }
    assert(out@ =~= out@ + replaced_from(s@, p@, r@, i as int));
    out
}

// ---------------------------------------------------------- path cleanup

/// A path segment cleaned: trimmed, trailing dots dropped.
pub open spec fn clean_segment(seg: Seq<char>) -> Seq<char> {
    trimmed(trim(seg), seq!['.'], false, false, true)
}

/// The cleaned segments that are not empty.
pub open spec fn cleaned_parts(parts: Seq<Seq<char>>) -> Seq<Seq<char>>
    decreases parts.len(),
{
    if parts.len() == 0 {
        Seq::empty()
    } else {
        let prev = cleaned_parts(parts.drop_last());
        let c = clean_segment(parts.last());
        if c.len() > 0 { prev.push(c) } else { prev }
    }
}

/// Texts joined by `sep`.
pub open spec fn joined(parts: Seq<Seq<char>>, sep: Seq<char>) -> Seq<char>
    decreases parts.len(),
{
    if parts.len() == 0 {
        Seq::empty()
    } else if parts.len() == 1 {
        parts[0]
    } else {
        joined(parts.drop_last(), sep) + sep + parts.last()
    }
}

/// Whether a path starts with a drive such as `D:`.
pub open spec fn has_drive(t: Seq<char>) -> bool {
    t.len() >= 2 && utf8_width(t[0]) == 1 && t[1] == ':'
}

/// A destination folder made usable: trimmed; a drive prefix kept; every
/// segment trimmed and stripped of trailing dots, empty ones dropped; joined by `\`.
pub open spec fn sanitized_path(s: Seq<char>) -> Seq<char> {
    let t = trim(s);
    let prefix = if has_drive(t) { t.take(2) } else { Seq::empty() };
    let rest = if has_drive(t) { t.skip(2) } else { t };
    let c = cleaned_parts(split_parts(rest));
    if c.len() == 0 { prefix } else { prefix + "\\"@ + joined(c, "\\"@) }
}

fn clean_segment_chars(seg: &Vec<char>) -> (r: Vec<char>)
    ensures
        r@ == clean_segment(seg@),
{
    let t = trim_ws(seg);
    let mut dot: Vec<char> = Vec::new();
    dot.push('.');
    assert(dot@ =~= seq!['.']);
    trim_by(&t, &dot, false, false, true)
}

pub fn sanitize_path(path: &str) -> (r: String)
    ensures
        r@ == sanitized_path(path@),
{
    let v = chars_of(path);
    let t = trim_ws(&v);
    let drive = t.len() >= 2 && crate::text::char_width(t[0]) == 1 && t[1] == ':';
    assert(drive == has_drive(t@));
    let mut prefix: Vec<char> = Vec::new();
    let mut start: usize = 0;
    if drive {
        prefix.push(t[0]);
        prefix.push(t[1]);
        start = 2;
        assert(prefix@ =~= t@.take(2));
    } else {
        assert(prefix@ =~= Seq::<char>::empty());
    }
    let ghost rest = if drive { t@.skip(2) } else { t@ };
    assert(prefix@ == (if has_drive(t@) { t@.take(2) } else { Seq::<char>::empty() }));
    // walk the rest, cutting at separators
    let mut cleaned: Vec<Vec<char>> = Vec::new();
    let mut cur: Vec<char> = Vec::new();
    let ghost mut done: Seq<Seq<char>> = Seq::empty();
    let mut i: usize = start;
    assert(rest.take(0) =~= Seq::<char>::empty());
    assert(split_parts(rest.take(0)) =~= seq![Seq::<char>::empty()]);
    while i < t.len()
        invariant
            start <= i <= t.len(),
            rest.len() == t.len() - start,
            forall|k: int| 0 <= k < rest.len() ==> #[trigger] rest[k] == t@[start + k],
            split_parts(rest.take(i - start)) == done.push(cur@),
            cleaned_parts(done) == crate::text::vviews(cleaned@),
        decreases t.len() - i,
    {
        let ghost k: int = i - start;
        assert(rest.take(k + 1).drop_last() =~= rest.take(k));
        assert(rest.take(k + 1).last() == t@[i as int]);
        let c = t[i];
        if c == '\\' || c == '/' {
            let cs = clean_segment_chars(&cur);
            let ghost d0 = done;
            let ghost c0 = cleaned@;
            proof {
                done = done.push(cur@);
                assert(done.drop_last() =~= d0);
            }
            if cs.len() > 0 {
                cleaned.push(cs);
                assert(crate::text::vviews(cleaned@) =~= crate::text::vviews(c0).push(clean_segment(cur@)));
            }
            cur = Vec::new();
            assert(split_parts(rest.take(k + 1)) =~= done.push(cur@));
        } else {
            let ghost old_cur = cur@;
            cur.push(c);
            assert(split_parts(rest.take(k + 1)) =~= done.push(cur@));
        }
        i = i + 1;
    }
    assert(rest.take(t.len() - start) =~= rest);
    let cs = clean_segment_chars(&cur);
    let ghost c0 = cleaned@;
    let ghost all = done.push(cur@);
    assert(all.drop_last() =~= done);
    if cs.len() > 0 {
        cleaned.push(cs);
        assert(crate::text::vviews(cleaned@) =~= crate::text::vviews(c0).push(clean_segment(cur@)));
    }
    assert(cleaned_parts(split_parts(rest)) == crate::text::vviews(cleaned@));
    if cleaned.len() == 0 {
        return string_of(&prefix);
    }
    let mut body: Vec<char> = copy_chars(&cleaned[0]);
    let mut j: usize = 1;
    let ghost cv = crate::text::vviews(cleaned@);
    assert(cv.take(1) =~= seq![cv[0]]);
    while j < cleaned.len()
        invariant
            1 <= j <= cleaned.len(),
            cv == crate::text::vviews(cleaned@),
            body@ == joined(cv.take(j as int), "\\"@),
        decreases cleaned.len() - j,
    {
        assert(cv.take(j + 1).drop_last() =~= cv.take(j as int));
        body.push('\\');
        append(&mut body, &cleaned[j]);
        proof { reveal_strlit("\\"); }
        assert(body@ =~= joined(cv.take(j as int), "\\"@) + "\\"@ + cv[j as int]);
        j = j + 1;
    }
    assert(cv.take(cleaned.len() as int) =~= cv);
    let mut out = prefix;
    out.push('\\');
    append(&mut out, &body);
    proof { reveal_strlit("\\"); }
    assert(out@ =~= prefix@ + "\\"@ + body@);
    string_of(&out)
}

// -------------------------------------------------------------- templates

/// Sequence numbering for `{seq}`: the next number and its zero-padded width.
#[derive(Debug, Clone, Copy, PartialEq, Eq, Structural)]
pub struct TransformContext {
    pub sequence: u32,
    pub seq_padding: u32,
}

impl Default for TransformContext {
    fn default() -> (r: TransformContext)
        ensures
            r.sequence == 1,
            r.seq_padding == 3,
    {
        TransformContext { sequence: 1, seq_padding: 3 }
    }
}

/// What a template can read of a file beyond its path: its size, and its
/// creation and modification dates in local time (year, month, day, as written
/// with `%Y`, `%m`, `%d`), each when known.
pub struct PathMeta {
    pub size: Option<u64>,
    pub created: Option<(String, String, String)>,
    pub modified: Option<(String, String, String)>,
}

/// A size in mebibytes with one decimal, rounded half to even.
pub open spec fn size_mb_text(size: u64) -> Seq<char> {
    let tenths = (size as int) * 10;
    let q = tenths / 1048576;
    let rem = tenths % 1048576;
    let rounded = if rem * 2 > 1048576 || (rem * 2 == 1048576 && q % 2 == 1) { q + 1 } else { q };
    decimal((rounded / 10) as nat) + "."@ + seq![digit_char(rounded % 10)]
}

/// `d` padded on the left with zeros to `w` characters.
pub open spec fn zero_padded(d: Seq<char>, w: int) -> Seq<char> {
    if d.len() >= w { d } else { Seq::new((w - d.len()) as nat, |i: int| '0') + d }
}

pub open spec fn date_replaced(s: Seq<char>, date: Option<(String, String, String)>, y: Seq<char>, m: Seq<char>, d: Seq<char>) -> Seq<char> {
    match date {
        Some(t) => replaced(replaced(replaced(s, y, t.0@), m, t.1@), d, t.2@),
        None => s,
    }
}

/// A template with its variables filled in for `source`, then trimmed.
pub open spec fn expanded(template: Seq<char>, source: Seq<char>, meta: PathMeta, ctx: TransformContext) -> Seq<char> {
    let a = replaced(template, "{filename}"@, stem_or_empty(source));
    let b = replaced(a, "{extension}"@, ext_or_empty(source));
    let c = replaced(b, "{full_name}"@, name_or_empty(source));
    let d = replaced(c, "{parent_dir}"@, parent_name_of(source));
    let e = match meta.size {
        Some(sz) => replaced(d, "{size_mb}"@, size_mb_text(sz)),
        None => d,
    };
    let f = date_replaced(e, meta.created, "{created_year}"@, "{created_month}"@, "{created_day}"@);
    let g = date_replaced(f, meta.modified, "{modified_year}"@, "{modified_month}"@, "{modified_day}"@);
    let h = replaced(g, "{seq}"@, zero_padded(decimal(ctx.sequence as nat), ctx.seq_padding as int));
    trim(h)
}

fn replace_str(s: Vec<char>, p: &str, r: &Vec<char>) -> (out: Vec<char>)
    ensures
        out@ == replaced(s@, p@, r@),
{
    let pv = chars_of(p);
    replace_all(&s, &pv, r)
}

fn size_mb(size: u64) -> (r: Vec<char>)
    ensures
        r@ == size_mb_text(size),
{
    let tenths: u128 = (size as u128) * 10;
    let q: u128 = tenths / 1048576;
    let rem: u128 = tenths % 1048576;
    let rounded: u128 = if rem * 2 > 1048576 || (rem * 2 == 1048576 && q % 2 == 1) { q + 1 } else { q };
    assert(rounded / 10 <= u64::MAX) by (nonlinear_arith)
        requires
            tenths == (size as int) * 10,
            q == tenths / 1048576,
            rounded <= q + 1,
            size <= u64::MAX;
    let whole = (rounded / 10) as u64;
    let frac = (rounded % 10) as u64;
    let mut r = decimal_chars(whole);
    r.push('.');
    r.push(digit(frac));
    assert(r@ =~= decimal((rounded / 10) as nat) + "."@ + seq![digit_char((rounded % 10) as int)]) by {
        reveal_strlit(".");
    }
    r
}

fn digit(d: u64) -> (c: char)
    requires
        d < 10,
    ensures
        c == digit_char(d as int),
{
    if d == 0 { '0' } else if d == 1 { '1' } else if d == 2 { '2' } else if d == 3 { '3' } else if d == 4 { '4' }
    else if d == 5 { '5' } else if d == 6 { '6' } else if d == 7 { '7' } else if d == 8 { '8' } else { '9' }
}

fn pad_zeros(d: Vec<char>, w: u32) -> (r: Vec<char>)
    ensures
        r@ == zero_padded(d@, w as int),
{
    if d.len() >= w as usize {
        return d;
    }
    let n = w as usize - d.len();
    let mut r: Vec<char> = Vec::new();
    let mut i: usize = 0;
    while i < n
        invariant
            i <= n,
            r@ =~= Seq::new(i as nat, |k: int| '0'),
        decreases n - i,
    {
        r.push('0');
        i = i + 1;
    }
    append(&mut r, &d);
    r
}

fn replace_date(s: Vec<char>, date: &Option<(String, String, String)>, y: &str, m: &str, d: &str) -> (r: Vec<char>)
    ensures
        r@ == date_replaced(s@, *date, y@, m@, d@),
{
    match date {
        Some(t) => {
            let a = replace_str(s, y, &chars_of(t.0.as_str()));
            let b = replace_str(a, m, &chars_of(t.1.as_str()));
            replace_str(b, d, &chars_of(t.2.as_str()))
        },
        None => s,
    }
}

/// Fills in a template for `source`: `{filename}`, `{extension}`,
/// `{full_name}`, `{parent_dir}`, `{size_mb}`, the created and modified
/// year, month and day, and `{seq}`; the result is trimmed.
pub fn expand_template(template: &str, source: &str, meta: &PathMeta, ctx: &TransformContext) -> (r: String)
    ensures
        r@ == expanded(template@, source@, *meta, *ctx),
{
    let sv = chars_of(source);
    let (name, stem, ext) = name_parts(&sv);
    let parent = match parent_chars(&sv) {
        Some(p) => match file_name_chars(&p) {
            Some(n) => n,
            None => Vec::new(),
        },
        None => Vec::new(),
    };
    let t = chars_of(template);
    let a = replace_str(t, "{filename}", &stem);
    let b = replace_str(a, "{extension}", &ext);
    let c = replace_str(b, "{full_name}", &name);
    let d = replace_str(c, "{parent_dir}", &parent);
    let e = match meta.size {
        Some(sz) => replace_str(d, "{size_mb}", &size_mb(sz)),
        None => d,
    };
    let f = replace_date(e, &meta.created, "{created_year}", "{created_month}", "{created_day}");
    let g = replace_date(f, &meta.modified, "{modified_year}", "{modified_month}", "{modified_day}");
    let seq = pad_zeros(decimal_chars(ctx.sequence as u64), ctx.seq_padding);
    let h = replace_str(g, "{seq}", &seq);
    let out = trim_ws(&h);
    string_of(&out)
}

// ---------------------------------------------------------------- actions

/// The value under `key` in a JSON object: that of the first entry with the key.
pub open spec fn field_of(v: JsonValue, key: Seq<char>) -> Option<JsonValue> {
    match v {
        JsonValue::Object(entries) => first_field(entries@, key),
        _ => None,
    }
}

pub open spec fn first_field(entries: Seq<(String, JsonValue)>, key: Seq<char>) -> Option<JsonValue>
    decreases entries.len(),
{
    if entries.len() == 0 {
        None
    } else if entries[0].0@ == key {
        Some(entries[0].1)
    } else {
        first_field(entries.drop_first(), key)
    }
}

/// The text under `key`, or `default`.
pub open spec fn field_text(v: JsonValue, key: Seq<char>, default: Seq<char>) -> Seq<char> {
    match field_of(v, key) {
        Some(JsonValue::Text(s)) => s@,
        _ => default,
    }
}

/// The non-negative number under `key`, if any.
pub open spec fn field_count(v: JsonValue, key: Seq<char>) -> Option<u64> {
    match field_of(v, key) {
        Some(JsonValue::Number(n)) => if n >= 0 { Some(n as u64) } else { None },
        _ => None,
    }
}

fn get_field<'a>(v: &'a JsonValue, key: &str) -> (r: Option<&'a JsonValue>)
    ensures
        match field_of(*v, key@) {
            Some(x) => r matches Some(y) && *y == x,
            None => r is None,
        },
{
    match v {
        JsonValue::Object(entries) => {
            let mut i: usize = 0;
            assert(entries@.skip(0) =~= entries@);
            assert(field_of(*v, key@) == first_field(entries@, key@));
            while i < entries.len()
                invariant
                    i <= entries.len(),
                    field_of(*v, key@) == first_field(entries@, key@),
                    first_field(entries@, key@) == first_field(entries@.skip(i as int), key@),
                decreases entries.len() - i,
            {
                assert(entries@.skip(i as int)[0] == entries@[i as int]);
                assert(entries@.skip(i as int).drop_first() =~= entries@.skip(i + 1));
                if crate::text::str_eq(entries[i].0.as_str(), key) {
                    return Some(&entries[i].1);
                }
                i = i + 1;
            }
            None
        },
        _ => None,
    }
}

fn text_field(v: &JsonValue, key: &str, default: &str) -> (r: Vec<char>)
    ensures
        r@ == field_text(*v, key@, default@),
{
    match get_field(v, key) {
        Some(JsonValue::Text(s)) => chars_of(s.as_str()),
        _ => chars_of(default),
    }
}

/// The stem a rename gives, and the numbering after it.
pub open spec fn renamed_stem(stem: Seq<char>, source: Seq<char>, params: RenameParams, meta: PathMeta, ctx: TransformContext) -> (Seq<char>, TransformContext) {
    match params.mode {
        RenameMode::Replace => (replaced(stem, field_text(params.detail, "find"@, ""@), field_text(params.detail, "replace"@, ""@)), ctx),
        RenameMode::Prefix => (expanded(field_text(params.detail, "text"@, ""@), source, meta, ctx) + stem, ctx),
        RenameMode::Suffix => (stem + expanded(field_text(params.detail, "text"@, ""@), source, meta, ctx), ctx),
        RenameMode::Sequence => {
            let padding: u32 = match field_count(params.detail, "padding"@) {
                Some(p) => (p % 0x1_0000_0000) as u32,
                None => 3,
            };
            let c = TransformContext { sequence: ctx.sequence, seq_padding: padding };
            (expanded(field_text(params.detail, "template"@, "{filename}_{seq}"@), source, meta, c),
             TransformContext { sequence: if ctx.sequence == u32::MAX { 0 } else { (ctx.sequence + 1) as u32 }, seq_padding: padding })
        },
    }
}

/// Where a rename takes a file: beside it, under the new stem and the old extension.
pub open spec fn rename_target(source: Seq<char>, params: RenameParams, meta: PathMeta, ctx: TransformContext, windows: bool) -> Option<(Seq<char>, TransformContext)> {
    match (parent_of(source), file_stem_of(source)) {
        (Some(parent), Some(stem)) => {
            let (new_stem, c) = renamed_stem(stem, source, params, meta, ctx);
            let name = match extension_of(source) {
                Some(e) => if e.len() > 0 { new_stem + "."@ + e } else { new_stem },
                None => new_stem,
            };
            Some((join_path_on(parent, name, windows), c))
        },
        _ => None,
    }
}

/// Where a move or a copy takes a file: into the expanded, cleaned destination.
pub open spec fn route_target(source: Seq<char>, params: RouteParams, meta: PathMeta, ctx: TransformContext, windows: bool) -> Option<Seq<char>> {
    match file_name_of(source) {
        Some(name) => Some(join_path_on(sanitized_path(expanded(params.dest_pattern@, source, meta, ctx)), name, windows)),
        None => None,
    }
}

pub fn compute_rename(source: &str, params: &RenameParams, meta: &PathMeta, ctx: &mut TransformContext, windows: bool) -> (r: Option<String>)
    ensures
        match rename_target(source@, *params, *meta, *old(ctx), windows) {
            Some((t, c)) => r matches Some(x) && x@ == t && *final(ctx) == c,
            None => r is None && *final(ctx) == *old(ctx),
        },
{
    let sv = chars_of(source);
    let parent = match parent_chars(&sv) {
        Some(p) => p,
        None => { return None; },
    };
    let name = match file_name_chars(&sv) {
        Some(n) => n,
        None => { return None; },
    };
    let (stem, ext) = split_name(&name);
    let stem_s = string_of(&stem);
    let new_stem: Vec<char> = match params.mode {
        RenameMode::Replace => {
            let find = text_field(&params.detail, "find", "");
            let with = text_field(&params.detail, "replace", "");
            replace_all(&stem, &find, &with)
        },
        RenameMode::Prefix => {
            let text = string_of(&text_field(&params.detail, "text", ""));
            let e = expand_template(text.as_str(), source, meta, ctx);
            concat_chars(&chars_of(e.as_str()), &stem)
        },
        RenameMode::Suffix => {
            let text = string_of(&text_field(&params.detail, "text", ""));
            let e = expand_template(text.as_str(), source, meta, ctx);
            concat_chars(&stem, &chars_of(e.as_str()))
        },
        RenameMode::Sequence => {
            let template = string_of(&text_field(&params.detail, "template", "{filename}_{seq}"));
            let padding: u32 = match get_field(&params.detail, "padding") {
                Some(JsonValue::Number(n)) => if *n >= 0 { ((*n as u64) % 0x1_0000_0000) as u32 } else { 3 },
                _ => 3,
            };
            ctx.seq_padding = padding;
            let e = expand_template(template.as_str(), source, meta, ctx);
            ctx.sequence = ctx.sequence.wrapping_add(1);
            chars_of(e.as_str())
        },
    };
    assert(stem@ == stem_of_name(name@));
    assert(new_stem@ == renamed_stem(stem@, source@, *params, *meta, *old(ctx)).0);
    assert(*ctx == renamed_stem(stem@, source@, *params, *meta, *old(ctx)).1);
    let new_name = match ext {
        Some(e) => {
            if e.len() > 0 {
                let dot = chars_of(".");
                let x = concat_chars(&new_stem, &dot);
                concat_chars(&x, &e)
            } else {
                new_stem
            }
        },
        None => new_stem,
    };
    let full = join_chars_on(&parent, &new_name, windows);
    Some(string_of(&full))
}

pub fn compute_route(source: &str, params: &RouteParams, meta: &PathMeta, ctx: &TransformContext, windows: bool) -> (r: Option<String>)
    ensures
        match route_target(source@, *params, *meta, *ctx, windows) {
            Some(t) => r matches Some(x) && x@ == t,
            None => r is None,
        },
{
    let dest = expand_template(params.dest_pattern.as_str(), source, meta, ctx);
    let dest = sanitize_path(dest.as_str());
    let sv = chars_of(source);
    match file_name_chars(&sv) {
        Some(name) => {
            let dv = chars_of(dest.as_str());
            let full = join_chars_on(&dv, &name, windows);
            Some(string_of(&full))
        },
        None => None,
    }
}

/// The new path an action gives a file; a delete gives none.
pub fn compute_target(source: &str, action: &Action, meta: &PathMeta, ctx: &mut TransformContext, windows: bool) -> (r: Option<String>)
    ensures
        match action {
            Action::Rename(p) => match rename_target(source@, *p, *meta, *old(ctx), windows) {
                Some((t, c)) => r matches Some(x) && x@ == t && *final(ctx) == c,
                None => r is None && *final(ctx) == *old(ctx),
            },
            Action::Move(p) => *final(ctx) == *old(ctx) && match route_target(source@, *p, *meta, *old(ctx), windows) {
                Some(t) => r matches Some(x) && x@ == t,
                None => r is None,
            },
            Action::Copy(p) => *final(ctx) == *old(ctx) && match route_target(source@, *p, *meta, *old(ctx), windows) {
                Some(t) => r matches Some(x) && x@ == t,
                None => r is None,
            },
            Action::Delete(_) => r is None && *final(ctx) == *old(ctx),
        },
{
    match action {
        Action::Rename(p) => compute_rename(source, p, meta, ctx, windows),
        Action::Move(p) => compute_route(source, p, meta, ctx, windows),
        Action::Copy(p) => compute_route(source, p, meta, ctx, windows),
        Action::Delete(_) => None,
    }
}

// ------------------------------------------------------------------ laws

proof fn lemma_replaced_from_absent(s: Seq<char>, p: Seq<char>, r: Seq<char>, i: int)
    requires
        p.len() > 0,
        0 <= i <= s.len(),
        forall|j: int| i <= j < s.len() ==> !occurs_at(s, p, j),
    ensures
        replaced_from(s, p, r, i) == s.subrange(i, s.len() as int),
    decreases s.len() - i,
{
    if i < s.len() {
        lemma_replaced_from_absent(s, p, r, i + 1);
        assert(seq![s[i]] + s.subrange(i + 1, s.len() as int) =~= s.subrange(i, s.len() as int));
    } else {
        assert(s.subrange(i, s.len() as int) =~= Seq::<char>::empty());
    }
}

/// Replacing a text that does not occur leaves the text as it was.
pub proof fn lemma_replace_absent(s: Seq<char>, p: Seq<char>, r: Seq<char>)
    requires
        p.len() > 0,
        forall|j: int| !occurs_at(s, p, j),
    ensures
        replaced(s, p, r) == s,
{
    lemma_replaced_from_absent(s, p, r, 0);
    assert(s.subrange(0, s.len() as int) =~= s);
}

/// Replacing a whole text gives the replacement.
pub proof fn lemma_replace_whole(p: Seq<char>, r: Seq<char>)
    requires
        p.len() > 0,
    ensures
        replaced(p, p, r) == r,
{
    assert(p.subrange(0, p.len() as int) =~= p);
    assert(occurs_at(p, p, 0));
    assert(replaced_from(p, p, r, p.len() as int) == Seq::<char>::empty());
    assert(r + Seq::<char>::empty() =~= r);
}

/// The stems that the four kinds of rename give, each against the same rename
/// with the stem `other` in place of `stem` and against the same detail under
/// the other kind of affix:
/// - a suffix rename keeps the stem in front and appends a text that does not
///   depend on the stem; a prefix rename keeps the stem at the end and puts in
///   front of it that same text;
/// - a sequence rename does not look at the stem, and moves the counter on by
///   one (from the largest counter back to zero);
/// - a replacement whose search text is not empty and does not occur in the
///   stem leaves it as it was;
/// - only a sequence rename moves the counter.
pub proof fn lemma_rename_stems(stem: Seq<char>, other: Seq<char>, source: Seq<char>, detail: JsonValue, meta: PathMeta, ctx: TransformContext)
    ensures
        ({
            let suffix = renamed_stem(stem, source, RenameParams { mode: RenameMode::Suffix, detail }, meta, ctx);
            let suffix2 = renamed_stem(other, source, RenameParams { mode: RenameMode::Suffix, detail }, meta, ctx);
            let prefix = renamed_stem(stem, source, RenameParams { mode: RenameMode::Prefix, detail }, meta, ctx);
            let added = suffix.0.subrange(stem.len() as int, suffix.0.len() as int);
            &&& stem.len() <= suffix.0.len()
            &&& suffix.0.subrange(0, stem.len() as int) == stem
            &&& added == suffix2.0.subrange(other.len() as int, suffix2.0.len() as int)
            &&& prefix.0 == added + stem
            &&& suffix.1 == ctx && prefix.1 == ctx
        }),
        ({
            let a = renamed_stem(stem, source, RenameParams { mode: RenameMode::Sequence, detail }, meta, ctx);
            let b = renamed_stem(other, source, RenameParams { mode: RenameMode::Sequence, detail }, meta, ctx);
            &&& a == b
            &&& a.1.sequence == (if ctx.sequence == u32::MAX { 0 } else { ctx.sequence + 1 })
        }),
        ({
            let find = field_text(detail, "find"@, ""@);
            let r = renamed_stem(stem, source, RenameParams { mode: RenameMode::Replace, detail }, meta, ctx);
            &&& r.1 == ctx
            &&& (find.len() > 0 && forall|j: int| !occurs_at(stem, find, j)) ==> r.0 == stem
        }),
{
    let x = expanded(field_text(detail, "text"@, ""@), source, meta, ctx);
    assert((stem + x).subrange(0, stem.len() as int) =~= stem);
    assert((stem + x).subrange(stem.len() as int, (stem + x).len() as int) =~= x);
    assert((other + x).subrange(other.len() as int, (other + x).len() as int) =~= x);
    let find = field_text(detail, "find"@, ""@);
    if find.len() > 0 && forall|j: int| !occurs_at(stem, find, j) {
        lemma_replace_absent(stem, find, field_text(detail, "replace"@, ""@));
    }
}

pub(crate) proof fn lemma_join_parts(base: Seq<char>, name: Seq<char>, windows: bool)
    ensures
        base.len() <= join_path_on(base, name, windows).len(),
        join_path_on(base, name, windows).subrange(0, base.len() as int) == base,
        name.len() <= join_path_on(base, name, windows).len(),
        join_path_on(base, name, windows).subrange(join_path_on(base, name, windows).len() - name.len(), join_path_on(base, name, windows).len() as int) == name,
{
    let j = join_path_on(base, name, windows);
    if j == base + name {
        assert((base + name).subrange(0, base.len() as int) =~= base);
        assert((base + name).subrange((base + name).len() - name.len(), (base + name).len() as int) =~= name);
    } else if windows {
        let b = base.push('\\');
        assert(j == b + name);
        assert((b + name).subrange(0, base.len() as int) =~= base);
        assert((b + name).subrange((b + name).len() - name.len(), (b + name).len() as int) =~= name);
    } else {
        let b = base.push('/');
        assert(j == b + name);
        assert((b + name).subrange(0, base.len() as int) =~= base);
        assert((b + name).subrange((b + name).len() - name.len(), (b + name).len() as int) =~= name);
    }
}

/// A rename has a target exactly when the path has a folder and a stem, and it
/// moves the counter as the stem's rename does; a move or a copy has one
/// exactly when the path has a file name.
pub proof fn lemma_targets_exist(source: Seq<char>, rp: RenameParams, op: RouteParams, meta: PathMeta, ctx: TransformContext, windows: bool)
    ensures
        rename_target(source, rp, meta, ctx, windows) is Some <==> (parent_of(source) is Some && file_stem_of(source) is Some),
        rename_target(source, rp, meta, ctx, windows) matches Some((_, c)) ==> (file_stem_of(source) matches Some(stem)
            && c == renamed_stem(stem, source, rp, meta, ctx).1),
        route_target(source, op, meta, ctx, windows) is Some <==> file_name_of(source) is Some,
{
}

/// A rename keeps a file in its folder and keeps its extension: the new path
/// begins with the file's folder and ends with `.` and the old extension.
pub proof fn lemma_rename_keeps_folder_and_extension(source: Seq<char>, params: RenameParams, meta: PathMeta, ctx: TransformContext, windows: bool)
    ensures
        rename_target(source, params, meta, ctx, windows) matches Some((t, _)) ==> (parent_of(source) matches Some(p)
            && p.len() <= t.len() && t.subrange(0, p.len() as int) == p
            && match extension_of(source) {
                Some(e) => e.len() > 0 ==> ("."@ + e).len() <= t.len()
                    && t.subrange(t.len() - ("."@ + e).len(), t.len() as int) == "."@ + e,
                None => true,
            }),
{
    if let (Some(parent), Some(stem)) = (parent_of(source), file_stem_of(source)) {
        let (new_stem, c) = renamed_stem(stem, source, params, meta, ctx);
        let name = match extension_of(source) {
            Some(e) => if e.len() > 0 { new_stem + "."@ + e } else { new_stem },
            None => new_stem,
        };
        lemma_join_parts(parent, name, windows);
        if let Some(e) = extension_of(source) {
            if e.len() > 0 {
                let tail = "."@ + e;
                let t = join_path_on(parent, name, windows);
                assert(name == new_stem + tail);
                assert(name.subrange(name.len() - tail.len(), name.len() as int) =~= tail);
                assert(t.subrange(t.len() - tail.len(), t.len() as int) =~=
                    t.subrange(t.len() - name.len(), t.len() as int).subrange(name.len() - tail.len(), name.len() as int));
            }
        }
    }
}

/// A template variable: `{`, a name with no brace in it, `}`.
pub open spec fn template_var(v: Seq<char>) -> bool {
    &&& v.len() >= 2
    &&& v[0] == '{'
    &&& v[v.len() - 1] == '}'
    &&& forall|k: int| 0 < k < v.len() - 1 ==> #[trigger] v[k] != '{' && v[k] != '}'
}

/// A text with no `{`, in which no template variable can stand.
pub open spec fn no_open_brace(s: Seq<char>) -> bool {
    forall|k: int| 0 <= k < s.len() ==> #[trigger] s[k] != '{'
}

proof fn lemma_template_names()
    ensures
        "{filename}"@.len() == 10,
        "{extension}"@.len() == 11,
        "{full_name}"@.len() == 11,
        "{parent_dir}"@.len() == 12,
        "{size_mb}"@.len() == 9,
        "{created_year}"@.len() == 14,
        "{created_month}"@.len() == 15,
        "{created_day}"@.len() == 13,
        "{modified_year}"@.len() == 15,
        "{modified_month}"@.len() == 16,
        "{modified_day}"@.len() == 14,
        "{seq}"@.len() == 5,
        template_var("{filename}"@),
        template_var("{extension}"@),
        template_var("{full_name}"@),
        template_var("{parent_dir}"@),
        template_var("{size_mb}"@),
        template_var("{created_year}"@),
        template_var("{created_month}"@),
        template_var("{created_day}"@),
        template_var("{modified_year}"@),
        template_var("{modified_month}"@),
        template_var("{modified_day}"@),
        template_var("{seq}"@),
        "{extension}"@ != "{full_name}"@,
        "{created_year}"@ != "{modified_day}"@,
        "{created_month}"@ != "{modified_year}"@,
{
    reveal_strlit("{filename}");
    assert("{filename}"@.len() == 10);
    assert forall|k: int| 0 < k < 9 implies "{filename}"@[k] != '{' && "{filename}"@[k] != '}' by {
        assert(k == 1 || k == 2 || k == 3 || k == 4 || k == 5 || k == 6 || k == 7 || k == 8);
    }
    reveal_strlit("{extension}");
    assert("{extension}"@.len() == 11);
    assert forall|k: int| 0 < k < 10 implies "{extension}"@[k] != '{' && "{extension}"@[k] != '}' by {
        assert(k == 1 || k == 2 || k == 3 || k == 4 || k == 5 || k == 6 || k == 7 || k == 8 || k == 9);
    }
    reveal_strlit("{full_name}");
    assert("{full_name}"@.len() == 11);
    assert forall|k: int| 0 < k < 10 implies "{full_name}"@[k] != '{' && "{full_name}"@[k] != '}' by {
        assert(k == 1 || k == 2 || k == 3 || k == 4 || k == 5 || k == 6 || k == 7 || k == 8 || k == 9);
    }
    reveal_strlit("{parent_dir}");
    assert("{parent_dir}"@.len() == 12);
    assert forall|k: int| 0 < k < 11 implies "{parent_dir}"@[k] != '{' && "{parent_dir}"@[k] != '}' by {
        assert(k == 1 || k == 2 || k == 3 || k == 4 || k == 5 || k == 6 || k == 7 || k == 8 || k == 9 || k == 10);
    }
    reveal_strlit("{size_mb}");
    assert("{size_mb}"@.len() == 9);
    assert forall|k: int| 0 < k < 8 implies "{size_mb}"@[k] != '{' && "{size_mb}"@[k] != '}' by {
        assert(k == 1 || k == 2 || k == 3 || k == 4 || k == 5 || k == 6 || k == 7);
    }
    reveal_strlit("{created_year}");
    assert("{created_year}"@.len() == 14);
    assert forall|k: int| 0 < k < 13 implies "{created_year}"@[k] != '{' && "{created_year}"@[k] != '}' by {
        assert(k == 1 || k == 2 || k == 3 || k == 4 || k == 5 || k == 6 || k == 7 || k == 8 || k == 9 || k == 10 || k == 11 || k == 12);
    }
    reveal_strlit("{created_month}");
    assert("{created_month}"@.len() == 15);
    assert forall|k: int| 0 < k < 14 implies "{created_month}"@[k] != '{' && "{created_month}"@[k] != '}' by {
        assert(k == 1 || k == 2 || k == 3 || k == 4 || k == 5 || k == 6 || k == 7 || k == 8 || k == 9 || k == 10 || k == 11 || k == 12 || k == 13);
    }
    reveal_strlit("{created_day}");
    assert("{created_day}"@.len() == 13);
    assert forall|k: int| 0 < k < 12 implies "{created_day}"@[k] != '{' && "{created_day}"@[k] != '}' by {
        assert(k == 1 || k == 2 || k == 3 || k == 4 || k == 5 || k == 6 || k == 7 || k == 8 || k == 9 || k == 10 || k == 11);
    }
    reveal_strlit("{modified_year}");
    assert("{modified_year}"@.len() == 15);
    assert forall|k: int| 0 < k < 14 implies "{modified_year}"@[k] != '{' && "{modified_year}"@[k] != '}' by {
        assert(k == 1 || k == 2 || k == 3 || k == 4 || k == 5 || k == 6 || k == 7 || k == 8 || k == 9 || k == 10 || k == 11 || k == 12 || k == 13);
    }
    reveal_strlit("{modified_month}");
    assert("{modified_month}"@.len() == 16);
    assert forall|k: int| 0 < k < 15 implies "{modified_month}"@[k] != '{' && "{modified_month}"@[k] != '}' by {
        assert(k == 1 || k == 2 || k == 3 || k == 4 || k == 5 || k == 6 || k == 7 || k == 8 || k == 9 || k == 10 || k == 11 || k == 12 || k == 13 || k == 14);
    }
    reveal_strlit("{modified_day}");
    assert("{modified_day}"@.len() == 14);
    assert forall|k: int| 0 < k < 13 implies "{modified_day}"@[k] != '{' && "{modified_day}"@[k] != '}' by {
        assert(k == 1 || k == 2 || k == 3 || k == 4 || k == 5 || k == 6 || k == 7 || k == 8 || k == 9 || k == 10 || k == 11 || k == 12);
    }
    reveal_strlit("{seq}");
    assert("{seq}"@.len() == 5);
    assert forall|k: int| 0 < k < 4 implies "{seq}"@[k] != '{' && "{seq}"@[k] != '}' by {
        assert(k == 1 || k == 2 || k == 3);
    }
    assert("{extension}"@[1] != "{full_name}"@[1]);
    assert("{created_year}"@[1] != "{modified_day}"@[1]);
    assert("{created_month}"@[1] != "{modified_year}"@[1]);
}

proof fn lemma_var_absent(s: Seq<char>, p: Seq<char>)
    requires
        template_var(p),
        no_open_brace(s) || (template_var(s) && s != p),
    ensures
        forall|j: int| !occurs_at(s, p, j),
{
    assert forall|j: int| !occurs_at(s, p, j) by {
        if occurs_at(s, p, j) {
            assert(s.subrange(j, j + p.len())[0] == p[0]);
            assert(s[j] == '{');
            if !no_open_brace(s) {
                assert(j == 0);
                let last = p.len() - 1;
                assert(s.subrange(0, p.len() as int)[last] == p[last]);
                assert(s[last] == '}');
                assert(last == s.len() - 1);
                assert(s =~= s.subrange(0, p.len() as int));
            }
        }
    }
}

proof fn lemma_step(s: Seq<char>, p: Seq<char>, r: Seq<char>, v: Seq<char>, vv: Seq<char>)
    requires
        template_var(p),
        template_var(v),
        no_open_brace(vv),
        s == v || s == vv,
    ensures
        replaced(s, p, r) == (if s == v && p == v { r } else { s }),
{
    if s == v && p == v {
        lemma_replace_whole(p, r);
    } else {
        if s == vv {
            assert(no_open_brace(s));
        }
        lemma_var_absent(s, p);
        lemma_replace_absent(s, p, r);
    }
}

proof fn lemma_expand_one(v: Seq<char>, vv: Seq<char>, source: Seq<char>, meta: PathMeta, ctx: TransformContext)
    requires
        template_var(v),
        no_open_brace(vv),
        v == "{filename}"@ && vv == stem_or_empty(source)
            || v == "{extension}"@ && vv == ext_or_empty(source)
            || v == "{full_name}"@ && vv == name_or_empty(source)
            || v == "{parent_dir}"@ && vv == parent_name_of(source)
            || v == "{size_mb}"@ && (meta.size matches Some(sz) && vv == size_mb_text(sz))
            || v == "{created_year}"@ && (meta.created matches Some(t) && vv == t.0@)
            || v == "{created_month}"@ && (meta.created matches Some(t) && vv == t.1@)
            || v == "{created_day}"@ && (meta.created matches Some(t) && vv == t.2@)
            || v == "{modified_year}"@ && (meta.modified matches Some(t) && vv == t.0@)
            || v == "{modified_month}"@ && (meta.modified matches Some(t) && vv == t.1@)
            || v == "{modified_day}"@ && (meta.modified matches Some(t) && vv == t.2@),
    ensures
        expanded(v, source, meta, ctx) == trim(vv),
{
    lemma_template_names();
    let a = replaced(v, "{filename}"@, stem_or_empty(source));
    lemma_step(v, "{filename}"@, stem_or_empty(source), v, vv);
    let b = replaced(a, "{extension}"@, ext_or_empty(source));
    lemma_step(a, "{extension}"@, ext_or_empty(source), v, vv);
    let c = replaced(b, "{full_name}"@, name_or_empty(source));
    lemma_step(b, "{full_name}"@, name_or_empty(source), v, vv);
    let d = replaced(c, "{parent_dir}"@, parent_name_of(source));
    lemma_step(c, "{parent_dir}"@, parent_name_of(source), v, vv);
    let e = match meta.size {
        Some(sz) => replaced(d, "{size_mb}"@, size_mb_text(sz)),
        None => d,
    };
    if let Some(sz) = meta.size {
        lemma_step(d, "{size_mb}"@, size_mb_text(sz), v, vv);
    }
    let f = date_replaced(e, meta.created, "{created_year}"@, "{created_month}"@, "{created_day}"@);
    if let Some(t) = meta.created {
        let f1 = replaced(e, "{created_year}"@, t.0@);
        lemma_step(e, "{created_year}"@, t.0@, v, vv);
        let f2 = replaced(f1, "{created_month}"@, t.1@);
        lemma_step(f1, "{created_month}"@, t.1@, v, vv);
        lemma_step(f2, "{created_day}"@, t.2@, v, vv);
    }
    let g = date_replaced(f, meta.modified, "{modified_year}"@, "{modified_month}"@, "{modified_day}"@);
    if let Some(t) = meta.modified {
        let g1 = replaced(f, "{modified_year}"@, t.0@);
        lemma_step(f, "{modified_year}"@, t.0@, v, vv);
        let g2 = replaced(g1, "{modified_month}"@, t.1@);
        lemma_step(g1, "{modified_month}"@, t.1@, v, vv);
        lemma_step(g2, "{modified_day}"@, t.2@, v, vv);
    }
    assert(g == vv);
    lemma_step(g, "{seq}"@, zero_padded(decimal(ctx.sequence as nat), ctx.seq_padding as int), v, vv);
}

/// Each date variable of a template stands for its own part of its own date:
/// a template that is `{created_year}`, `{created_month}` or `{created_day}`
/// expands to the year, month or day of the creation date, and one that is
/// `{modified_year}`, `{modified_month}` or `{modified_day}` to that of the
/// modification date, whatever the other date, the size, the path and the
/// counter are (each part as written, trimmed; parts with no `{` in them).
pub proof fn lemma_date_variables(source: Seq<char>, meta: PathMeta, ctx: TransformContext)
    ensures
        meta.created matches Some(t) ==> ({
            &&& no_open_brace(t.0@) ==> expanded("{created_year}"@, source, meta, ctx) == trim(t.0@)
            &&& no_open_brace(t.1@) ==> expanded("{created_month}"@, source, meta, ctx) == trim(t.1@)
            &&& no_open_brace(t.2@) ==> expanded("{created_day}"@, source, meta, ctx) == trim(t.2@)
        }),
        meta.modified matches Some(t) ==> ({
            &&& no_open_brace(t.0@) ==> expanded("{modified_year}"@, source, meta, ctx) == trim(t.0@)
            &&& no_open_brace(t.1@) ==> expanded("{modified_month}"@, source, meta, ctx) == trim(t.1@)
            &&& no_open_brace(t.2@) ==> expanded("{modified_day}"@, source, meta, ctx) == trim(t.2@)
        }),
{
    lemma_template_names();
    if let Some(t) = meta.created {
        if no_open_brace(t.0@) { lemma_expand_one("{created_year}"@, t.0@, source, meta, ctx); }
        if no_open_brace(t.1@) { lemma_expand_one("{created_month}"@, t.1@, source, meta, ctx); }
        if no_open_brace(t.2@) { lemma_expand_one("{created_day}"@, t.2@, source, meta, ctx); }
    }
    if let Some(t) = meta.modified {
        if no_open_brace(t.0@) { lemma_expand_one("{modified_year}"@, t.0@, source, meta, ctx); }
        if no_open_brace(t.1@) { lemma_expand_one("{modified_month}"@, t.1@, source, meta, ctx); }
        if no_open_brace(t.2@) { lemma_expand_one("{modified_day}"@, t.2@, source, meta, ctx); }
    }
}

/// The name variables of a template stand for the parts of the file's path:
/// `{filename}` for its stem, `{extension}` for its extension, `{full_name}`
/// for its whole name and `{parent_dir}` for the name of its folder, whatever
/// the dates, the size and the counter are (parts with no `{` in them).
pub proof fn lemma_name_variables(source: Seq<char>, meta: PathMeta, ctx: TransformContext)
    ensures
        no_open_brace(stem_or_empty(source)) ==> expanded("{filename}"@, source, meta, ctx) == trim(stem_or_empty(source)),
        no_open_brace(ext_or_empty(source)) ==> expanded("{extension}"@, source, meta, ctx) == trim(ext_or_empty(source)),
        no_open_brace(name_or_empty(source)) ==> expanded("{full_name}"@, source, meta, ctx) == trim(name_or_empty(source)),
        no_open_brace(parent_name_of(source)) ==> expanded("{parent_dir}"@, source, meta, ctx) == trim(parent_name_of(source)),
{
    lemma_template_names();
    if no_open_brace(stem_or_empty(source)) { lemma_expand_one("{filename}"@, stem_or_empty(source), source, meta, ctx); }
    if no_open_brace(ext_or_empty(source)) { lemma_expand_one("{extension}"@, ext_or_empty(source), source, meta, ctx); }
    if no_open_brace(name_or_empty(source)) { lemma_expand_one("{full_name}"@, name_or_empty(source), source, meta, ctx); }
    if no_open_brace(parent_name_of(source)) { lemma_expand_one("{parent_dir}"@, parent_name_of(source), source, meta, ctx); }
}

/// A template with no `{` in it has no variables: it is only trimmed.
pub proof fn lemma_plain_template(template: Seq<char>, source: Seq<char>, meta: PathMeta, ctx: TransformContext)
    requires
        no_open_brace(template),
    ensures
        expanded(template, source, meta, ctx) == trim(template),
{
    lemma_template_names();
    assert forall|p: Seq<char>, r: Seq<char>| template_var(p) implies #[trigger] replaced(template, p, r) == template by {
        lemma_var_absent(template, p);
        lemma_replace_absent(template, p, r);
    }
}

proof fn lemma_decimal_digits(n: nat)
    ensures
        forall|k: int| 0 <= k < decimal(n).len() ==> '0' <= #[trigger] decimal(n)[k] <= '9',
        decimal(n).len() >= 1,
    decreases n,
{
    if n >= 10 {
        lemma_decimal_digits(n / 10);
        let p = decimal(n / 10);
        assert forall|k: int| 0 <= k < decimal(n).len() implies '0' <= #[trigger] decimal(n)[k] <= '9' by {
            if k < p.len() {
                assert(decimal(n)[k] == p[k]);
            }
        }
    }
}

/// `{seq}` stands for the counter, zero-padded to its width: a template that
/// is `{seq}` gives the counter's decimal digits, with zeros in front up to the
/// padding, and only the counter's digits; the counter is never read for any
/// other variable (see the other laws).
pub proof fn lemma_sequence_variable(source: Seq<char>, meta: PathMeta, ctx: TransformContext)
    ensures
        ({
            let out = expanded("{seq}"@, source, meta, ctx);
            let digits = decimal(ctx.sequence as nat);
            &&& out.len() == if digits.len() >= ctx.seq_padding { digits.len() as int } else { ctx.seq_padding as int }
            &&& out.subrange(out.len() - digits.len(), out.len() as int) == digits
            &&& forall|k: int| 0 <= k < out.len() - digits.len() ==> #[trigger] out[k] == '0'
        }),
{
    lemma_template_names();
    let digits = decimal(ctx.sequence as nat);
    lemma_decimal_digits(ctx.sequence as nat);
    let z = zero_padded(digits, ctx.seq_padding as int);
    assert forall|k: int| 0 <= k < z.len() implies #[trigger] z[k] != '{' && z[k] != ' ' by {
        if digits.len() < ctx.seq_padding {
            let pad = Seq::new((ctx.seq_padding - digits.len()) as nat, |i: int| '0');
            assert(z == pad + digits);
            if k >= pad.len() {
                assert(z[k] == digits[k - pad.len()]);
            }
        }
    }
    let v = "{seq}"@;
    let a = replaced(v, "{filename}"@, stem_or_empty(source));
    lemma_step(v, "{filename}"@, stem_or_empty(source), v, z);
    let b = replaced(a, "{extension}"@, ext_or_empty(source));
    lemma_step(a, "{extension}"@, ext_or_empty(source), v, z);
    let c = replaced(b, "{full_name}"@, name_or_empty(source));
    lemma_step(b, "{full_name}"@, name_or_empty(source), v, z);
    let d = replaced(c, "{parent_dir}"@, parent_name_of(source));
    lemma_step(c, "{parent_dir}"@, parent_name_of(source), v, z);
    let e = match meta.size {
        Some(sz) => replaced(d, "{size_mb}"@, size_mb_text(sz)),
        None => d,
    };
    if let Some(sz) = meta.size {
        lemma_step(d, "{size_mb}"@, size_mb_text(sz), v, z);
    }
    let f = date_replaced(e, meta.created, "{created_year}"@, "{created_month}"@, "{created_day}"@);
    if let Some(t) = meta.created {
        let f1 = replaced(e, "{created_year}"@, t.0@);
        lemma_step(e, "{created_year}"@, t.0@, v, z);
        let f2 = replaced(f1, "{created_month}"@, t.1@);
        lemma_step(f1, "{created_month}"@, t.1@, v, z);
        lemma_step(f2, "{created_day}"@, t.2@, v, z);
    }
    let g = date_replaced(f, meta.modified, "{modified_year}"@, "{modified_month}"@, "{modified_day}"@);
    if let Some(t) = meta.modified {
        let g1 = replaced(f, "{modified_year}"@, t.0@);
        lemma_step(f, "{modified_year}"@, t.0@, v, z);
        let g2 = replaced(g1, "{modified_month}"@, t.1@);
        lemma_step(g1, "{modified_month}"@, t.1@, v, z);
        lemma_step(g2, "{modified_day}"@, t.2@, v, z);
    }
    assert(g == v);
    lemma_step(g, "{seq}"@, z, v, z);
    lemma_trim_clean(z);
    if digits.len() < ctx.seq_padding {
        let pad = Seq::new((ctx.seq_padding - digits.len()) as nat, |i: int| '0');
        assert(z == pad + digits);
        assert(z.subrange(z.len() - digits.len(), z.len() as int) =~= digits);
        assert forall|k: int| 0 <= k < z.len() - digits.len() implies #[trigger] z[k] == '0' by {
            assert(z[k] == pad[k]);
        }
    } else {
        assert(z.subrange(0, z.len() as int) =~= z);
    }
}

/// A text with no white space is left as it is by trimming.
proof fn lemma_trim_clean(z: Seq<char>)
    requires
        forall|k: int| 0 <= k < z.len() ==> !crate::text::white_space(#[trigger] z[k]),
    ensures
        trim(z) == z,
{
    let ws = crate::text::trim_pred(seq![], true);
    if z.len() > 0 {
        assert(!ws(z[0]));
        assert(crate::text::trim_start_by(z, ws) == z);
        assert(!ws(z.last()));
        assert(crate::text::trim_end_by(z, ws) == z);
    } else {
        assert(crate::text::trim_start_by(z, ws) == z);
        assert(crate::text::trim_end_by(z, ws) == z);
    }
}

/// A replacement works from the front and goes on after each match: a stem that
/// starts with the search text gives the replacement text followed by what the
/// rest of the stem gives, and one that does not start with it keeps its first
/// character and goes on with the rest.
pub proof fn lemma_replace_steps(stem: Seq<char>, source: Seq<char>, detail: JsonValue, meta: PathMeta, ctx: TransformContext)
    requires
        field_text(detail, "find"@, ""@).len() > 0,
    ensures
        ({
            let find = field_text(detail, "find"@, ""@);
            let repl = field_text(detail, "replace"@, ""@);
            let params = RenameParams { mode: RenameMode::Replace, detail };
            let rest = renamed_stem(stem.skip(find.len() as int), source, params, meta, ctx).0;
            let tail = renamed_stem(stem.skip(1), source, params, meta, ctx).0;
            let r = renamed_stem(stem, source, params, meta, ctx).0;
            &&& stem.len() == 0 ==> r.len() == 0
            &&& stem.len() > 0 && occurs_at(stem, find, 0) ==> r == repl + rest
            &&& stem.len() > 0 && !occurs_at(stem, find, 0) ==> r == seq![stem[0]] + tail
        }),
{
    let find = field_text(detail, "find"@, ""@);
    let repl = field_text(detail, "replace"@, ""@);
    if stem.len() > 0 {
        if occurs_at(stem, find, 0) {
            let x = stem.take(find.len() as int);
            let y = stem.skip(find.len() as int);
            assert(x + y =~= stem);
            lemma_replaced_shift(x, y, find, repl, 0);
        } else {
            let x = stem.take(1);
            let y = stem.skip(1);
            assert(x + y =~= stem);
            lemma_replaced_shift(x, y, find, repl, 0);
            assert(seq![stem[0]] =~= x);
        }
    }
}

/// A replacement whose search text is the whole stem gives the replacement text.
pub proof fn lemma_replace_whole_stem(stem: Seq<char>, source: Seq<char>, detail: JsonValue, meta: PathMeta, ctx: TransformContext)
    requires
        stem.len() > 0,
        field_text(detail, "find"@, ""@) == stem,
    ensures
        renamed_stem(stem, source, RenameParams { mode: RenameMode::Replace, detail }, meta, ctx).0 == field_text(detail, "replace"@, ""@),
{
    lemma_replace_whole(stem, field_text(detail, "replace"@, ""@));
}

/// A move or a copy keeps the file's name: the new path ends with it, after the
/// cleaned destination folder.
pub proof fn lemma_route_keeps_name(source: Seq<char>, params: RouteParams, meta: PathMeta, ctx: TransformContext, windows: bool)
    ensures
        route_target(source, params, meta, ctx, windows) matches Some(t) ==> (file_name_of(source) matches Some(n)
            && n.len() <= t.len() && t.subrange(t.len() - n.len(), t.len() as int) == n
            && ({
                let dest = sanitized_path(expanded(params.dest_pattern@, source, meta, ctx));
                dest.len() <= t.len() && t.subrange(0, dest.len() as int) == dest
            })),
{
    if let Some(n) = file_name_of(source) {
        lemma_join_parts(sanitized_path(expanded(params.dest_pattern@, source, meta, ctx)), n, windows);
    }
}

/// Every `{` of the text is followed, later in it, by a `}`.
pub open spec fn closed_braces(x: Seq<char>) -> bool {
    forall|j: int| 0 <= j < x.len() && #[trigger] x[j] == '{' ==> exists|k: int| j < k < x.len() && x[k] == '}'
}

proof fn lemma_piece_closed(x: Seq<char>)
    requires
        template_var(x) || no_open_brace(x),
    ensures
        closed_braces(x),
{
    if template_var(x) {
        assert forall|j: int| 0 <= j < x.len() && #[trigger] x[j] == '{' implies exists|k: int| j < k < x.len() && x[k] == '}' by {
            assert(j == 0);
            assert(x[x.len() - 1] == '}');
        }
    }
}

proof fn lemma_replaced_shift(x: Seq<char>, y: Seq<char>, p: Seq<char>, r: Seq<char>, k: int)
    requires
        p.len() > 0,
        0 <= k <= y.len(),
    ensures
        replaced_from(x + y, p, r, x.len() + k) == replaced_from(y, p, r, k),
    decreases y.len() - k,
{
    let s = x + y;
    let i = x.len() + k;
    if k < y.len() {
        if i + p.len() <= s.len() {
            assert(s.subrange(i, i + p.len()) =~= y.subrange(k, k + p.len()));
        }
        assert(occurs_at(s, p, i) == occurs_at(y, p, k));
        assert(s[i] == y[k]);
        if occurs_at(y, p, k) {
            lemma_replaced_shift(x, y, p, r, k + p.len());
        } else {
            lemma_replaced_shift(x, y, p, r, k + 1);
        }
    }
}

proof fn lemma_replaced_split_from(x: Seq<char>, y: Seq<char>, p: Seq<char>, r: Seq<char>, i: int)
    requires
        template_var(p),
        closed_braces(x),
        0 <= i <= x.len(),
    ensures
        replaced_from(x + y, p, r, i) == replaced_from(x, p, r, i) + replaced_from(y, p, r, 0),
    decreases x.len() - i,
{
    let s = x + y;
    if i == x.len() {
        lemma_replaced_shift(x, y, p, r, 0);
        assert(replaced_from(x, p, r, i) == Seq::<char>::empty());
        assert(Seq::<char>::empty() + replaced_from(y, p, r, 0) =~= replaced_from(y, p, r, 0));
    } else {
        if i + p.len() <= x.len() {
            assert(s.subrange(i, i + p.len()) =~= x.subrange(i, i + p.len()));
            assert(occurs_at(s, p, i) == occurs_at(x, p, i));
        } else {
            assert(!occurs_at(x, p, i));
            if occurs_at(s, p, i) {
                assert(s.subrange(i, i + p.len())[0] == p[0]);
                assert(x[i] == '{');
                let k = choose|k: int| i < k < x.len() && x[k] == '}';
                assert(s.subrange(i, i + p.len())[k - i] == p[k - i]);
                assert(s[k] == x[k]);
                assert(false);
            }
        }
        assert(s[i] == x[i]);
        if occurs_at(x, p, i) {
            lemma_replaced_split_from(x, y, p, r, i + p.len());
            assert(r + replaced_from(x, p, r, i + p.len()) + replaced_from(y, p, r, 0)
                =~= r + (replaced_from(x, p, r, i + p.len()) + replaced_from(y, p, r, 0)));
        } else {
            lemma_replaced_split_from(x, y, p, r, i + 1);
            assert(seq![x[i]] + replaced_from(x, p, r, i + 1) + replaced_from(y, p, r, 0)
                =~= seq![x[i]] + (replaced_from(x, p, r, i + 1) + replaced_from(y, p, r, 0)));
        }
    }
}

/// Replacing a template variable in a text whose first part closes every `{`
/// it opens replaces in each part on its own.
proof fn lemma_replaced_split(x: Seq<char>, y: Seq<char>, p: Seq<char>, r: Seq<char>)
    requires
        template_var(p),
        closed_braces(x),
    ensures
        replaced(x + y, p, r) == replaced(x, p, r) + replaced(y, p, r),
{
    lemma_replaced_split_from(x, y, p, r, 0);
}

proof fn lemma_closed_concat(x: Seq<char>, y: Seq<char>)
    requires
        closed_braces(x),
        closed_braces(y),
    ensures
        closed_braces(x + y),
{
    let s = x + y;
    assert forall|j: int| 0 <= j < s.len() && #[trigger] s[j] == '{' implies exists|k: int| j < k < s.len() && s[k] == '}' by {
        if j < x.len() {
            assert(x[j] == '{');
            let k = choose|k: int| j < k < x.len() && x[k] == '}';
            assert(s[k] == '}');
        } else {
            assert(y[j - x.len()] == '{');
            let k = choose|k: int| j - x.len() < k < y.len() && y[k] == '}';
            assert(s[k + x.len()] == '}');
        }
    }
}

/// One step of the expansion of `{filename}_{seq}`: the text stands in three
/// parts, the first `{filename}` or the stem, then `_`, then `{seq}` or the
/// counter text; a step replaces in each part on its own.
proof fn lemma_three_step(a: Seq<char>, c: Seq<char>, p: Seq<char>, r: Seq<char>, stem: Seq<char>, z: Seq<char>)
    requires
        template_var(p),
        template_var("{filename}"@),
        template_var("{seq}"@),
        no_open_brace(stem),
        no_open_brace(z),
        no_open_brace("_"@),
        a == "{filename}"@ || a == stem,
        c == "{seq}"@ || c == z,
    ensures
        replaced(a + "_"@ + c, p, r) == replaced(a, p, r) + "_"@ + replaced(c, p, r),
        replaced(a, p, r) == (if a == "{filename}"@ && p == "{filename}"@ { r } else { a }),
        replaced(c, p, r) == (if c == "{seq}"@ && p == "{seq}"@ { r } else { c }),
{
    lemma_piece_closed(a);
    lemma_piece_closed("_"@);
    lemma_closed_concat(a, "_"@);
    lemma_replaced_split(a + "_"@, c, p, r);
    lemma_replaced_split(a, "_"@, p, r);
    lemma_step(a, p, r, "{filename}"@, stem);
    lemma_step("_"@, p, r, "{filename}"@, "_"@);
    lemma_step(c, p, r, "{seq}"@, z);
}

/// A sequence rename with no template and no padding of its own names the file
/// by its stem, `_` and the counter padded to three digits: the new stem is the
/// file's stem, `_`, and what `{seq}` gives for the counter at padding three,
/// trimmed (for a stem with no `{` in it).
pub proof fn lemma_default_sequence_name(stem: Seq<char>, source: Seq<char>, detail: JsonValue, meta: PathMeta, ctx: TransformContext)
    requires
        field_of(detail, "template"@) is None,
        field_of(detail, "padding"@) is None,
        no_open_brace(stem_or_empty(source)),
    ensures
        renamed_stem(stem, source, RenameParams { mode: RenameMode::Sequence, detail }, meta, ctx).0 == trim(stem_or_empty(source) + "_"@
            + expanded("{seq}"@, source, meta, TransformContext { sequence: ctx.sequence, seq_padding: 3 })),
{
    lemma_template_names();
    reveal_strlit("_");
    reveal_strlit("{filename}_{seq}");
    reveal_strlit("{filename}");
    reveal_strlit("{seq}");
    assert("{filename}_{seq}"@ =~= "{filename}"@ + "_"@ + "{seq}"@);
    assert(no_open_brace("_"@));
    let c3 = TransformContext { sequence: ctx.sequence, seq_padding: 3 };
    let digits = decimal(ctx.sequence as nat);
    lemma_decimal_digits(ctx.sequence as nat);
    let z = zero_padded(digits, 3);
    assert forall|k: int| 0 <= k < z.len() implies #[trigger] z[k] != '{' && '0' <= z[k] <= '9' by {
        if digits.len() < 3 {
            let pad = Seq::new((3 - digits.len()) as nat, |i: int| '0');
            assert(z == pad + digits);
            if k >= pad.len() {
                assert(z[k] == digits[k - pad.len()]);
            }
        }
    }
    lemma_sequence_variable(source, meta, c3);
    lemma_trim_clean(z);
    lemma_expand_seq_value(source, meta, c3);
    let st = stem_or_empty(source);
    let a0 = "{filename}"@;
    let c0 = "{seq}"@;
    let a1 = replaced(a0, "{filename}"@, stem_or_empty(source));
    let c1 = replaced(c0, "{filename}"@, stem_or_empty(source));
    lemma_three_step(a0, c0, "{filename}"@, stem_or_empty(source), st, z);
    let a2 = replaced(a1, "{extension}"@, ext_or_empty(source));
    let c2 = replaced(c1, "{extension}"@, ext_or_empty(source));
    lemma_three_step(a1, c1, "{extension}"@, ext_or_empty(source), st, z);
    let a3 = replaced(a2, "{full_name}"@, name_or_empty(source));
    let c3 = replaced(c2, "{full_name}"@, name_or_empty(source));
    lemma_three_step(a2, c2, "{full_name}"@, name_or_empty(source), st, z);
    let a4 = replaced(a3, "{parent_dir}"@, parent_name_of(source));
    let c4 = replaced(c3, "{parent_dir}"@, parent_name_of(source));
    lemma_three_step(a3, c3, "{parent_dir}"@, parent_name_of(source), st, z);
    let a5 = match meta.size { Some(sz) => replaced(a4, "{size_mb}"@, size_mb_text(sz)), None => a4 };
    let c5 = match meta.size { Some(sz) => replaced(c4, "{size_mb}"@, size_mb_text(sz)), None => c4 };
    if let Some(sz) = meta.size { lemma_three_step(a4, c4, "{size_mb}"@, size_mb_text(sz), st, z); }
    let a6 = match meta.created { Some(t) => replaced(a5, "{created_year}"@, t.0@), None => a5 };
    let c6 = match meta.created { Some(t) => replaced(c5, "{created_year}"@, t.0@), None => c5 };
    if let Some(t) = meta.created { lemma_three_step(a5, c5, "{created_year}"@, t.0@, st, z); }
    let a7 = match meta.created { Some(t) => replaced(a6, "{created_month}"@, t.1@), None => a6 };
    let c7 = match meta.created { Some(t) => replaced(c6, "{created_month}"@, t.1@), None => c6 };
    if let Some(t) = meta.created { lemma_three_step(a6, c6, "{created_month}"@, t.1@, st, z); }
    let a8 = match meta.created { Some(t) => replaced(a7, "{created_day}"@, t.2@), None => a7 };
    let c8 = match meta.created { Some(t) => replaced(c7, "{created_day}"@, t.2@), None => c7 };
    if let Some(t) = meta.created { lemma_three_step(a7, c7, "{created_day}"@, t.2@, st, z); }
    let a9 = match meta.modified { Some(t) => replaced(a8, "{modified_year}"@, t.0@), None => a8 };
    let c9 = match meta.modified { Some(t) => replaced(c8, "{modified_year}"@, t.0@), None => c8 };
    if let Some(t) = meta.modified { lemma_three_step(a8, c8, "{modified_year}"@, t.0@, st, z); }
    let a10 = match meta.modified { Some(t) => replaced(a9, "{modified_month}"@, t.1@), None => a9 };
    let c10 = match meta.modified { Some(t) => replaced(c9, "{modified_month}"@, t.1@), None => c9 };
    if let Some(t) = meta.modified { lemma_three_step(a9, c9, "{modified_month}"@, t.1@, st, z); }
    let a11 = match meta.modified { Some(t) => replaced(a10, "{modified_day}"@, t.2@), None => a10 };
    let c11 = match meta.modified { Some(t) => replaced(c10, "{modified_day}"@, t.2@), None => c10 };
    if let Some(t) = meta.modified { lemma_three_step(a10, c10, "{modified_day}"@, t.2@, st, z); }
    let a12 = replaced(a11, "{seq}"@, z);
    let c12 = replaced(c11, "{seq}"@, z);
    lemma_three_step(a11, c11, "{seq}"@, z, st, z);
    assert(a12 == st && c12 == z);
}

/// The untrimmed value of `{seq}` at a counter state: its expansion.
proof fn lemma_expand_seq_value(source: Seq<char>, meta: PathMeta, ctx: TransformContext)
    ensures
        expanded("{seq}"@, source, meta, ctx) == zero_padded(decimal(ctx.sequence as nat), ctx.seq_padding as int),
{
    lemma_sequence_variable(source, meta, ctx);
    let digits = decimal(ctx.sequence as nat);
    let z = zero_padded(digits, ctx.seq_padding as int);
    let out = expanded("{seq}"@, source, meta, ctx);
    if digits.len() < ctx.seq_padding {
        let pad = Seq::new((ctx.seq_padding - digits.len()) as nat, |i: int| '0');
        assert(z == pad + digits);
        assert forall|k: int| 0 <= k < out.len() implies out[k] == z[k] by {
            if k < pad.len() {
            } else {
                assert(out.subrange(out.len() - digits.len(), out.len() as int)[k - pad.len()] == digits[k - pad.len()]);
            }
        }
        assert(out =~= z);
    } else {
        assert(out.subrange(0, out.len() as int) =~= out);
        assert(out =~= z);
    }
}

/// `{size_mb}` stands for the size in mebibytes, to one decimal: a template
/// that is `{size_mb}` gives, for a known size, whole mebibytes, `.`, and one
/// digit of tenths, the nearest tenth to the size (half a tenth at most away;
/// a tie goes to the even tenth).
pub proof fn lemma_size_variable(source: Seq<char>, meta: PathMeta, ctx: TransformContext)
    ensures
        meta.size matches Some(sz) ==> exists|n: int| #![trigger digit_char(n % 10)] n >= 0
            && expanded("{size_mb}"@, source, meta, ctx) == decimal((n / 10) as nat) + "."@ + seq![digit_char(n % 10)]
            && 2 * (n * 1048576 - 10 * sz) <= 1048576 && 2 * (10 * sz - n * 1048576) <= 1048576
            && (2 * (n * 1048576 - 10 * sz) == 1048576 || 2 * (10 * sz - n * 1048576) == 1048576 ==> n % 2 == 0),
{
    if let Some(sz) = meta.size {
        let t = size_mb_text(sz);
        let tenths = (sz as int) * 10;
        let q = tenths / 1048576;
        let rem = tenths % 1048576;
        assert(tenths == q * 1048576 + rem && 0 <= rem < 1048576 && q >= 0) by (nonlinear_arith)
            requires tenths >= 0, q == tenths / 1048576, rem == tenths % 1048576;
        let n = if rem * 2 > 1048576 || (rem * 2 == 1048576 && q % 2 == 1) { q + 1 } else { q };
        assert(n >= 0);
        lemma_decimal_digits((n / 10) as nat);
        reveal_strlit(".");
        let dg = seq![digit_char(n % 10)];
        assert(t == decimal((n / 10) as nat) + "."@ + dg);
        assert forall|k: int| 0 <= k < t.len() implies #[trigger] t[k] != '{' && !crate::text::white_space(t[k]) by {
            let d = decimal((n / 10) as nat);
            if k < d.len() {
                assert(t[k] == d[k]);
            } else if k == d.len() {
                assert(t[k] == '.');
            } else {
                assert(t[k] == digit_char(n % 10));
            }
        }
        lemma_template_names();
        lemma_expand_one("{size_mb}"@, t, source, meta, ctx);
        lemma_trim_clean(t);
        assert(2 * (n * 1048576 - 10 * sz) <= 1048576 && 2 * (10 * sz - n * 1048576) <= 1048576) by (nonlinear_arith)
            requires tenths == q * 1048576 + rem, 0 <= rem < 1048576, tenths == sz * 10,
                n == (if rem * 2 > 1048576 || (rem * 2 == 1048576 && q % 2 == 1) { q + 1 } else { q });
        assert(2 * (n * 1048576 - 10 * sz) == 1048576 || 2 * (10 * sz - n * 1048576) == 1048576 ==> n % 2 == 0) by (nonlinear_arith)
            requires tenths == q * 1048576 + rem, 0 <= rem < 1048576, tenths == sz * 10,
                n == (if rem * 2 > 1048576 || (rem * 2 == 1048576 && q % 2 == 1) { q + 1 } else { q });
        assert(digit_char(n % 10) == dg[0]);
    }
}

/// A segment of a cleaned path: not empty, with no separator, not ending with `.`.
pub open spec fn good_segment(x: Seq<char>) -> bool {
    &&& x.len() > 0
    &&& forall|k: int| 0 <= k < x.len() ==> !is_sep(#[trigger] x[k])
    &&& x[x.len() - 1] != '.'
}

proof fn lemma_split_parts_no_sep(s: Seq<char>)
    ensures
        forall|i: int, k: int| 0 <= i < split_parts(s).len() && 0 <= k < split_parts(s)[i].len() ==> !is_sep(#[trigger] split_parts(s)[i][k]),
        split_parts(s).len() >= 1,
    decreases s.len(),
{
    if s.len() > 0 {
        lemma_split_parts_no_sep(s.drop_last());
        let init = split_parts(s.drop_last());
        let r = split_parts(s);
        if !is_sep(s.last()) {
            assert forall|i: int, k: int| 0 <= i < r.len() && 0 <= k < r[i].len() implies !is_sep(#[trigger] r[i][k]) by {
                if i < init.len() - 1 {
                    assert(r[i] == init[i]);
                } else {
                    assert(r[i] == init.last().push(s.last()));
                    if k < init.last().len() {
                        assert(r[i][k] == init.last()[k]);
                    }
                }
            }
        } else {
            assert forall|i: int, k: int| 0 <= i < r.len() && 0 <= k < r[i].len() implies !is_sep(#[trigger] r[i][k]) by {
                if i < init.len() {
                    assert(r[i] == init[i]);
                }
            }
        }
    }
}

proof fn lemma_clean_segment(seg: Seq<char>)
    requires
        forall|k: int| 0 <= k < seg.len() ==> !is_sep(#[trigger] seg[k]),
    ensures
        clean_segment(seg).len() > 0 ==> good_segment(clean_segment(seg)),
{
    let ws = crate::text::trim_pred(seq![], true);
    crate::metadata::lemma_trim_start_part(seg, ws);
    let a1 = crate::text::trim_start_by(seg, ws);
    crate::metadata::lemma_trim_end_part(a1, ws);
    let t = crate::text::trim_end_by(a1, ws);
    assert(t == trim(seg));
    let dot = crate::text::trim_pred(seq!['.'], false);
    crate::metadata::lemma_trim_end_part(t, dot);
    let c = crate::text::trim_end_by(t, dot);
    assert(c == clean_segment(seg));
    let off = choose|k: int| 0 <= k <= seg.len() && a1 == seg.subrange(k, seg.len() as int);
    if c.len() > 0 {
        assert forall|k: int| 0 <= k < c.len() implies !is_sep(#[trigger] c[k]) by {
            assert(c[k] == t[k]);
            assert(t[k] == a1[k]);
            assert(a1[k] == seg[off + k]);
        }
        assert(!dot(c.last()));
        assert(seq!['.'][0] == '.');
        assert(c[c.len() - 1] != '.');
    }
}

proof fn lemma_cleaned_parts(parts: Seq<Seq<char>>)
    requires
        forall|i: int, k: int| 0 <= i < parts.len() && 0 <= k < parts[i].len() ==> !is_sep(#[trigger] parts[i][k]),
    ensures
        forall|i: int| 0 <= i < cleaned_parts(parts).len() ==> good_segment(#[trigger] cleaned_parts(parts)[i]),
    decreases parts.len(),
{
    if parts.len() > 0 {
        let p0 = parts.drop_last();
        assert forall|i: int, k: int| 0 <= i < p0.len() && 0 <= k < p0[i].len() implies !is_sep(#[trigger] p0[i][k]) by {
            assert(p0[i] == parts[i]);
        }
        lemma_cleaned_parts(p0);
        assert forall|k: int| 0 <= k < parts.last().len() implies !is_sep(#[trigger] parts.last()[k]) by {
            assert(parts.last() == parts[parts.len() - 1]);
        }
        lemma_clean_segment(parts.last());
        let prev = cleaned_parts(p0);
        let c = clean_segment(parts.last());
        let r = cleaned_parts(parts);
        if c.len() > 0 {
            assert(r == prev.push(c));
            assert forall|i: int| 0 <= i < r.len() implies good_segment(#[trigger] r[i]) by {
                if i < prev.len() {
                    assert(r[i] == prev[i]);
                }
            }
        } else {
            assert(r == prev);
        }
    }
}

/// The shape of segments joined by `\`.
proof fn lemma_joined_shape(c: Seq<Seq<char>>)
    requires
        c.len() > 0,
        forall|i: int| 0 <= i < c.len() ==> good_segment(#[trigger] c[i]),
    ensures
        ({
            let j = joined(c, "\\"@);
            &&& j.len() > 0
            &&& j[0] != '\\' && j[0] != '/'
            &&& j[j.len() - 1] != '.' && j[j.len() - 1] != '\\'
            &&& forall|k: int| 0 <= k < j.len() ==> #[trigger] j[k] != '/'
            &&& forall|k: int| 0 <= k < j.len() && #[trigger] j[k] == '\\' ==> 0 < k && k + 1 < j.len()
                && j[k - 1] != '.' && j[k - 1] != '\\' && j[k + 1] != '\\' && j[k + 1] != '/'
        }),
    decreases c.len(),
{
    reveal_strlit("\\");
    let j = joined(c, "\\"@);
    if c.len() == 1 {
        assert(j == c[0]);
        assert(good_segment(c[0]));
        assert(!is_sep(c[0][0]));
        assert forall|k: int| 0 <= k < j.len() implies #[trigger] j[k] != '/' by {
            assert(!is_sep(c[0][k]));
        }
    } else {
        let c0 = c.drop_last();
        assert forall|i: int| 0 <= i < c0.len() implies good_segment(#[trigger] c0[i]) by {
            assert(c0[i] == c[i]);
        }
        lemma_joined_shape(c0);
        let j0 = joined(c0, "\\"@);
        let x = c.last();
        assert(good_segment(c[c.len() - 1]));
        assert(j == j0 + "\\"@ + x);
        let n0 = j0.len() as int;
        assert(j[n0] == '\\');
        assert forall|k: int| 0 <= k < j.len() implies #[trigger] j[k] != '/' by {
            if k < n0 {
                assert(j[k] == j0[k]);
            } else if k > n0 {
                assert(j[k] == x[k - n0 - 1]);
                assert(!is_sep(x[k - n0 - 1]));
            }
        }
        assert forall|k: int| 0 <= k < j.len() && #[trigger] j[k] == '\\' implies 0 < k && k + 1 < j.len()
            && j[k - 1] != '.' && j[k - 1] != '\\' && j[k + 1] != '\\' && j[k + 1] != '/' by {
            if k < n0 {
                assert(j[k] == j0[k]);
                assert(j[k - 1] == j0[k - 1]);
                assert(j[k + 1] == j0[k + 1]);
            } else if k == n0 {
                assert(j[k - 1] == j0[n0 - 1]);
                assert(j[k + 1] == x[0]);
                assert(!is_sep(x[0]));
            } else {
                assert(j[k] == x[k - n0 - 1]);
                assert(!is_sep(x[k - n0 - 1]));
            }
        }
        assert(j[0] == j0[0]);
        assert(j[j.len() - 1] == x[x.len() - 1]);
        assert(!is_sep(x[x.len() - 1]));
    }
}

/// A cleaned destination folder keeps the drive of the trimmed folder (its
/// first two characters when it starts with one); after it, it is empty or it
/// is `\` followed by segments that single `\`s separate; no `/` is left there,
/// no segment is empty and none ends with `.`.
pub proof fn lemma_sanitized_shape(s: Seq<char>)
    ensures
        ({
            let out = sanitized_path(s);
            let pl: int = if has_drive(trim(s)) { 2 } else { 0 };
            &&& out.len() >= pl
            &&& out.take(pl) == trim(s).take(pl)
            &&& out.len() > pl ==> out[pl] == '\\' && out.len() > pl + 1 && out[out.len() - 1] != '.' && out[out.len() - 1] != '\\'
            &&& forall|k: int| pl <= k < out.len() ==> #[trigger] out[k] != '/'
            &&& forall|k: int| pl <= k < out.len() && #[trigger] out[k] == '\\' ==> k + 1 < out.len() && out[k + 1] != '\\'
                && out[k + 1] != '/' && (k > pl ==> out[k - 1] != '.')
        }),
{
    reveal_strlit("\\");
    let t = trim(s);
    let prefix = if has_drive(t) { t.take(2) } else { Seq::empty() };
    let rest = if has_drive(t) { t.skip(2) } else { t };
    lemma_split_parts_no_sep(rest);
    lemma_cleaned_parts(split_parts(rest));
    let c = cleaned_parts(split_parts(rest));
    let out = sanitized_path(s);
    let pl: int = if has_drive(t) { 2 } else { 0 };
    assert(prefix.len() == pl);
    if c.len() > 0 {
        lemma_joined_shape(c);
        let j = joined(c, "\\"@);
        assert(out == prefix + "\\"@ + j);
        assert(out[pl] == '\\');
        assert forall|k: int| pl < k < out.len() implies #[trigger] out[k] == j[k - pl - 1] by {}
        assert forall|k: int| pl <= k < out.len() implies #[trigger] out[k] != '/' by {
            if k > pl {
                assert(out[k] == j[k - pl - 1]);
            }
        }
        assert forall|k: int| pl <= k < out.len() && #[trigger] out[k] == '\\' implies k + 1 < out.len() && out[k + 1] != '\\'
            && out[k + 1] != '/' && (k > pl ==> out[k - 1] != '.') by {
            if k == pl {
                assert(out[k + 1] == j[0]);
            } else {
                assert(out[k] == j[k - pl - 1]);
                assert(out[k + 1] == j[k - pl]);
                if k - pl - 1 > 0 {
                    assert(out[k - 1] == j[k - pl - 2]);
                }
            }
        }
        assert(out[out.len() - 1] == j[j.len() - 1]);
        assert(out.take(pl) =~= prefix);
    } else {
        assert(out == prefix);
        assert(out.take(pl) =~= prefix);
    }
}

} // verus!
