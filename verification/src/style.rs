//! Inline style declarations: the allowed properties, value sanitization against
//! injection, and splitting of `key:value` lists that respects quotes and parentheses.
use vstd::prelude::*;
use vstd::string::StringExecFns;
use std::collections::BTreeMap;
use crate::diagnostics::ascii_lower;
use crate::model::IrInlineStyle;
use crate::text::{
    chars_of, contains_char, contains_chars, has_substring, is_white, push_char, string_from_chars, text_eq, trim,
    trim_end, trim_range, trim_start,
};

verus! {

/// The style properties that may pass through to rendered output.
pub open spec fn allowed_properties() -> Seq<Seq<char>> {
    seq![
        "fill"@, "stroke"@, "stroke-width"@, "stroke-dasharray"@, "stroke-linecap"@, "stroke-linejoin"@,
        "stroke-opacity"@, "fill-opacity"@, "opacity"@, "color"@, "font-size"@, "font-weight"@,
        "font-family"@, "font-style"@, "text-decoration"@, "background"@, "border-radius"@, "padding"@,
        "rx"@, "ry"@,
    ]
}

/// Whether a property is on the allowed list.
pub fn is_allowed_style_property(property: &str) -> (b: bool)
    ensures
        b == allowed_properties().contains(property@),
{
    let names: Vec<&str> = vec![
        "fill", "stroke", "stroke-width", "stroke-dasharray", "stroke-linecap", "stroke-linejoin",
        "stroke-opacity", "fill-opacity", "opacity", "color", "font-size", "font-weight",
        "font-family", "font-style", "text-decoration", "background", "border-radius", "padding",
        "rx", "ry",
    ];
    proof {
        assert(names@.map_values(|n: &str| n@) =~= allowed_properties());
    }
    let mut i: usize = 0;
    while i < names.len()
        invariant
            i <= names@.len(),
            names@.map_values(|n: &str| n@) == allowed_properties(),
            forall|k: int| 0 <= k < i ==> allowed_properties()[k] != property@,
        decreases names@.len() - i,
    {
        if text_eq(names[i], property) {
            proof {
                assert(allowed_properties()[i as int] == property@);
            }
            return true;
        }
        i = i + 1;
    }
    false
}

/// `s` with ASCII capitals turned into small letters.
pub open spec fn lower_text(s: Seq<char>) -> Seq<char> {
    s.map_values(|c: char| ascii_lower(c))
}

/// Whether a value must be rejected: it loads resources (`url(`), runs script
/// (`javascript:`, `expression(`, event handlers), or holds `<` or `>`.
pub open spec fn unsafe_value(value: Seq<char>) -> bool {
    let t = trim(lower_text(value));
    has_substring(t, "url("@) || has_substring(t, "javascript:"@) || has_substring(t, "onclick"@)
        || has_substring(t, "onerror"@) || has_substring(t, "onload"@) || has_substring(t, "onmouseover"@)
        || value.contains('<') || value.contains('>') || has_substring(t, "expression("@)
}

/// The sanitized form of a value: the value trimmed, or nothing when it is unsafe.
pub open spec fn sanitized(value: Seq<char>) -> Option<Seq<char>> {
    if unsafe_value(value) { None } else { Some(trim(value)) }
}

pub(crate) fn lower_chars(v: &Vec<char>) -> (r: Vec<char>)
    ensures
        r@ == lower_text(v@),
{
    let mut out: Vec<char> = Vec::new();
    let mut i: usize = 0;
    while i < v.len()
        invariant
            i <= v.len(),
            out@ == lower_text(v@.take(i as int)),
        decreases v.len() - i,
    {
        out.push(crate::diagnostics::ascii_lower_char(v[i]));
        proof {
            assert(lower_text(v@.take(i + 1)) =~= lower_text(v@.take(i as int)).push(ascii_lower(v@[i as int])));
        }
        i = i + 1;
    }
    proof {
        assert(v@.take(i as int) =~= v@);
    }
    out
}

fn unsafe_chars(value: &Vec<char>) -> (b: bool)
    ensures
        b == unsafe_value(value@),
{
    let lower = lower_chars(value);
    let t = trim_range(&lower, 0, lower.len());
    proof {
        assert(lower@.subrange(0, lower@.len() as int) =~= lower@);
    }
    contains_chars(&t, &chars_of("url(")) || contains_chars(&t, &chars_of("javascript:"))
        || contains_chars(&t, &chars_of("onclick")) || contains_chars(&t, &chars_of("onerror"))
        || contains_chars(&t, &chars_of("onload")) || contains_chars(&t, &chars_of("onmouseover"))
        || contains_char(value, '<') || contains_char(value, '>') || contains_chars(&t, &chars_of("expression("))
}

/// Sanitize a style value: `None` when it is unsafe, else the value trimmed.
pub fn sanitize_style_value(value: &str) -> (r: Option<String>)
    ensures
        match r {
            Some(s) => sanitized(value@) == Some(s@),
            None => sanitized(value@) is None,
        },
{
    let v = chars_of(value);
    if unsafe_chars(&v) {
        return None;
    }
    let t = trim_range(&v, 0, v.len());
    proof {
        assert(v@.subrange(0, v@.len() as int) =~= v@);
    }
    Some(string_from_chars(&t))
}

/// Index of the first `c` in `s`, or -1.
pub open spec fn first_index_of(s: Seq<char>, c: char) -> int
    decreases s.len(),
{
    if s.len() == 0 {
        -1
    } else if s[0] == c {
        0
    } else {
        let r = first_index_of(s.drop_first(), c);
        if r < 0 { -1 } else { r + 1 }
    }
}

proof fn lemma_first_index_of(s: Seq<char>, c: char)
    ensures
        -1 <= first_index_of(s, c) < s.len(),
        first_index_of(s, c) >= 0 ==> s[first_index_of(s, c)] == c,
        forall|k: int| 0 <= k < s.len() && (first_index_of(s, c) < 0 || k < first_index_of(s, c)) ==> s[k] != c,
    decreases s.len(),
{
    if s.len() > 0 && s[0] != c {
        lemma_first_index_of(s.drop_first(), c);
        assert forall|k: int| 0 <= k < s.len() && (first_index_of(s, c) < 0 || k < first_index_of(s, c)) implies s[k] != c by {
            if k > 0 {
                assert(s[k] == s.drop_first()[k - 1]);
            }
        }
    }
}

/// The declaration a segment holds: key (trimmed, lowercased) and sanitized value, when
/// it has a colon, an allowed key and a safe value.
pub open spec fn declaration_of(seg: Seq<char>) -> Option<(Seq<char>, Seq<char>)> {
    let t = trim(seg);
    let c = first_index_of(t, ':');
    if t.len() == 0 || c < 0 {
        None
    } else {
        let key = lower_text(trim(t.subrange(0, c)));
        match sanitized(t.subrange(c + 1, t.len() as int)) {
            Some(v) => if key.len() > 0 && allowed_properties().contains(key) { Some((key, v)) } else { None },
            None => None,
        }
    }
}

/// State of the declaration scanner: open quote, parenthesis depth, escape pending,
/// start of the current segment, and the segments closed so far (as index ranges).
pub type ScanState = (Option<char>, nat, bool, int, Seq<(int, int)>);

/// The scanner state after the first `n` characters of `s`.
pub open spec fn scan(s: Seq<char>, n: nat) -> ScanState
    decreases n,
{
    if n == 0 {
        (None, 0, false, 0, Seq::empty())
    } else {
        let (q, d, esc, st, segs) = scan(s, (n - 1) as nat);
        let i = n - 1;
        let ch = s[i];
        if esc {
            (q, d, false, st, segs)
        } else if ch == '\\' && q is Some {
            (q, d, true, st, segs)
        } else if ch == '"' || ch == '\'' {
            if q == Some(ch) {
                (None, d, esc, st, segs)
            } else if q is None {
                (Some(ch), d, esc, st, segs)
            } else {
                (q, d, esc, st, segs)
            }
        } else if ch == '(' && q is None {
            (q, d + 1, esc, st, segs)
        } else if ch == ')' && q is None {
            (q, if d > 0 { (d - 1) as nat } else { 0 }, esc, st, segs)
        } else if (ch == ',' || ch == ';') && q is None && d == 0 {
            (q, d, esc, i + 1, segs.push((st, i)))
        } else {
            (q, d, esc, st, segs)
        }
    }
}

/// The segments of `s`: split at commas and semicolons outside quotes and parentheses.
pub open spec fn segments(s: Seq<char>) -> Seq<(int, int)> {
    let (_, _, _, st, segs) = scan(s, s.len());
    segs.push((st, s.len() as int))
}

/// The declarations of the first `k` segments, in order.
pub open spec fn declarations_upto(s: Seq<char>, segs: Seq<(int, int)>, k: nat) -> Seq<(Seq<char>, Seq<char>)>
    decreases k,
{
    if k == 0 {
        Seq::empty()
    } else {
        let before = declarations_upto(s, segs, (k - 1) as nat);
        let (a, b) = segs[k - 1];
        match declaration_of(s.subrange(a, b)) {
            Some(d) => before.push(d),
            None => before,
        }
    }
}

/// The declarations of a style string, in source order.
pub open spec fn declarations(s: Seq<char>) -> Seq<(Seq<char>, Seq<char>)> {
    declarations_upto(s, segments(s), segments(s).len())
}

proof fn lemma_scan_bounds(s: Seq<char>, n: nat)
    requires
        n <= s.len(),
    ensures
        0 <= scan(s, n).3 <= n,
        scan(s, n).1 <= n,
        forall|k: int| 0 <= k < scan(s, n).4.len() ==> 0 <= (#[trigger] scan(s, n).4[k]).0 <= scan(s, n).4[k].1 < scan(s, n).3,
    decreases n,
{
    if n > 0 {
        lemma_scan_bounds(s, (n - 1) as nat);
    }
}

fn declaration_exec(v: &Vec<char>, lo: usize, hi: usize) -> (r: Option<(Vec<char>, Vec<char>)>)
    requires
        lo <= hi <= v.len(),
    ensures
        match r {
            Some((k, val)) => declaration_of(v@.subrange(lo as int, hi as int)) == Some((k@, val@)),
            None => declaration_of(v@.subrange(lo as int, hi as int)) is None,
        },
{
    let t = trim_range(v, lo, hi);
    if t.len() == 0 {
        return None;
    }
    let mut c: usize = 0;
    while c < t.len() && t[c] != ':'
        invariant
            c <= t.len(),
            forall|k: int| 0 <= k < c ==> t@[k] != ':',
        decreases t.len() - c,
    {
        c = c + 1;
    }
    proof {
        lemma_first_index_of(t@, ':');
    }
    if c == t.len() {
        return None;
    }
    proof {
        assert(first_index_of(t@, ':') == c);
    }
    let key_raw = trim_range(&t, 0, c);
    let key = lower_chars(&key_raw);
    let val_raw = trim_range(&t, c + 1, t.len());
    let val_chars = slice_chars(&t, c + 1, t.len());
    if key.len() == 0 {
        return None;
    }
    let key_string = string_from_chars(&key);
    if !is_allowed_style_property(key_string.as_str()) {
        return None;
    }
    if unsafe_chars(&val_chars) {
        return None;
    }
    Some((key, val_raw))
}

fn slice_chars(v: &Vec<char>, lo: usize, hi: usize) -> (r: Vec<char>)
    requires
        lo <= hi <= v.len(),
    ensures
        r@ == v@.subrange(lo as int, hi as int),
{
    let mut out: Vec<char> = Vec::new();
    let mut k = lo;
    while k < hi
        invariant
            lo <= k <= hi <= v.len(),
            out@ == v@.subrange(lo as int, k as int),
        decreases hi - k,
    {
        out.push(v[k]);
        proof {
            assert(out@ =~= v@.subrange(lo as int, k + 1));
        }
        k = k + 1;
    }
    out
}

/// The declarations of a style string, in source order: split at commas and
/// semicolons outside quotes and parentheses (a backslash inside quotes escapes the next
/// character); keep the segments with a colon, an allowed key and a safe value.
pub fn parse_style_declarations(raw: &str) -> (r: Vec<(String, String)>)
    ensures
        r@.map_values(|p: (String, String)| (p.0@, p.1@)) == declarations(raw@),
{
    let v = chars_of(raw);
    let mut out: Vec<(String, String)> = Vec::new();
    let mut quote: Option<char> = None;
    let mut depth: usize = 0;
    let mut escaped = false;
    let mut start: usize = 0;
    let ghost mut segs: Seq<(int, int)> = Seq::empty();
    let mut i: usize = 0;
    while i < v.len()
        invariant
            v@ == raw@,
            i <= v.len(),
            (quote, depth as nat, escaped, start as int, segs) == scan(raw@, i as nat),
            out@.map_values(|p: (String, String)| (p.0@, p.1@)) == declarations_upto(raw@, segs, segs.len()),
        decreases v.len() - i,
    {
        proof {
            lemma_scan_bounds(raw@, i as nat);
        }
        let ch = v[i];
        if escaped {
            escaped = false;
        } else if ch == '\\' && quote.is_some() {
            escaped = true;
        } else if ch == '"' || ch == '\'' {
            if quote == Some(ch) {
                quote = None;
            } else if quote.is_none() {
                quote = Some(ch);
            }
        } else if ch == '(' && quote.is_none() {
            depth = depth + 1;
        } else if ch == ')' && quote.is_none() {
            depth = if depth > 0 { depth - 1 } else { 0 };
        } else if (ch == ',' || ch == ';') && quote.is_none() && depth == 0 {
            let d = declaration_exec(&v, start, i);
            let ghost before = out@.map_values(|p: (String, String)| (p.0@, p.1@));
            match d {
                Some((k, val)) => {
                    out.push((string_from_chars(&k), string_from_chars(&val)));
                    proof {
                        assert(out@.map_values(|p: (String, String)| (p.0@, p.1@)) =~= before.push((k@, val@)));
                    }
                },
                None => {},
            }
            proof {
                let nsegs = segs.push((start as int, i as int));
                assert(nsegs.drop_last() =~= segs);
                assert(declarations_upto(raw@, nsegs, segs.len()) == declarations_upto(raw@, segs, segs.len())) by {
                    lemma_declarations_prefix(raw@, segs, nsegs, segs.len());
                }
                segs = nsegs;
            }
            start = i + 1;
        }
        i = i + 1;
    }
    proof {
        lemma_scan_bounds(raw@, i as nat);
    }
    let d = declaration_exec(&v, start, v.len());
    let ghost before = out@.map_values(|p: (String, String)| (p.0@, p.1@));
    match d {
        Some((k, val)) => {
            out.push((string_from_chars(&k), string_from_chars(&val)));
            proof {
                assert(out@.map_values(|p: (String, String)| (p.0@, p.1@)) =~= before.push((k@, val@)));
            }
        },
        None => {},
    }
    proof {
        let nsegs = segs.push((start as int, v.len() as int));
        assert(nsegs =~= segments(raw@));
        lemma_declarations_prefix(raw@, segs, nsegs, segs.len());
    }
    out
}

proof fn lemma_declarations_prefix(s: Seq<char>, a: Seq<(int, int)>, b: Seq<(int, int)>, k: nat)
    requires
        k <= a.len(),
        k <= b.len(),
        forall|i: int| 0 <= i < k ==> a[i] == b[i],
    ensures
        declarations_upto(s, a, k) == declarations_upto(s, b, k),
    decreases k,
{
    if k > 0 {
        lemma_declarations_prefix(s, a, b, (k - 1) as nat);
    }
}

/// The text of each key of a string map, mapped to the text of its value.
pub open spec fn text_view(m: Map<String, String>) -> Map<Seq<char>, Seq<char>> {
    Map::new(
        |k: Seq<char>| exists|s: String| m.contains_key(s) && s@ == k,
        |k: Seq<char>| m[choose|s: String| m.contains_key(s) && s@ == k]@,
    )
}

/// No two keys of a string map have the same text.
pub open spec fn text_keys_distinct(m: Map<String, String>) -> bool {
    forall|a: String, b: String| m.contains_key(a) && m.contains_key(b) && a@ == b@ ==> a == b
}

/// The map a list of (key, value) texts builds, a later entry for a key
/// replacing an earlier one.
pub open spec fn text_map(entries: Seq<(Seq<char>, Seq<char>)>) -> Map<Seq<char>, Seq<char>>
    decreases entries.len(),
{
    if entries.len() == 0 {
        Map::empty()
    } else {
        text_map(entries.drop_last()).insert(entries.last().0, entries.last().1)
    }
}

/// The properties a style string sets: its declarations, a later one for a
/// key replacing an earlier one.
pub open spec fn style_properties(raw: Seq<char>) -> Map<Seq<char>, Seq<char>> {
    text_map(declarations(raw))
}

/// Insert into a string map (`BTreeMap::insert`): std documents that an entry
/// whose key equals `k` (as text, `String`'s `Eq`/`Ord`) has its value
/// replaced, and that otherwise a new entry is added.
#[verifier::external_body]
pub(crate) fn insert_text_entry(m: &mut BTreeMap<String, String>, k: String, v: String)
    ensures
        text_keys_distinct(old(m)@) ==> text_keys_distinct(final(m)@) && text_view(final(m)@) == text_view(old(m)@).insert(k@, v@),
{
    m.insert(k, v);
}

proof fn lemma_empty_text_map(m: Map<String, String>)
    requires
        m == Map::<String, String>::empty(),
    ensures
        text_keys_distinct(m),
        text_view(m) == Map::<Seq<char>, Seq<char>>::empty(),
{
    assert(text_view(m) =~= Map::<Seq<char>, Seq<char>>::empty());
}

/// Parse a style string into its properties: the declarations of
/// [`parse_style_declarations`], a later one for a key replacing an earlier one.
pub fn parse_style_string(raw: &str) -> (style: IrInlineStyle)
    ensures
        text_view(style.properties@) == style_properties(raw@),
        text_keys_distinct(style.properties@),
        declarations(raw@).len() == 0 ==> style.properties@.is_empty(),
{
    let decls = parse_style_declarations(raw);
    let ghost dv = decls@.map_values(|p: (String, String)| (p.0@, p.1@));
    let mut properties: BTreeMap<String, String> = BTreeMap::new();
    proof {
        lemma_empty_text_map(properties@);
        assert(dv.take(0) =~= Seq::<(Seq<char>, Seq<char>)>::empty());
    }
    let n = decls.len();
    let mut pairs = decls;
    let mut i: usize = 0;
    while i < n
        invariant
            pairs@.len() == n,
            dv == pairs@.map_values(|p: (String, String)| (p.0@, p.1@)),
            dv == declarations(raw@),
            i <= n,
            n == 0 ==> properties@.is_empty(),
            text_keys_distinct(properties@),
            text_view(properties@) == text_map(dv.take(i as int)),
        decreases n - i,
    {
        let k = pairs[i].0.clone();
        let v = pairs[i].1.clone();
        proof {
            assert(dv.take(i + 1).drop_last() =~= dv.take(i as int));
            assert(dv[i as int] == (k@, v@));
        }
        insert_text_entry(&mut properties, k, v);
        i = i + 1;
    }
    proof {
        assert(dv.take(n as int) =~= dv);
    }
    IrInlineStyle { properties }
}

/// Character-wise lexicographic order (code point order, which is also the byte order
/// of UTF-8).
pub open spec fn text_lt(a: Seq<char>, b: Seq<char>) -> bool
    decreases a.len(),
{
    if a.len() == 0 {
        b.len() > 0
    } else if b.len() == 0 {
        false
    } else if a[0] != b[0] {
        (a[0] as int) < (b[0] as int)
    } else {
        text_lt(a.drop_first(), b.drop_first())
    }
}

/// `entries` lists the entries of `m` once each, in increasing key order.
pub open spec fn sorted_entries_of(m: Map<String, String>, entries: Seq<(String, String)>) -> bool {
    &&& entries.len() == m.dom().len()
    &&& forall|i: int| 0 <= i < entries.len() ==> m.contains_key(#[trigger] entries[i].0) && m[entries[i].0] == entries[i].1
    &&& forall|k: String| #[trigger] m.contains_key(k) ==> exists|i: int| 0 <= i < entries.len() && entries[i].0 == k
    &&& forall|i: int, j: int| 0 <= i < j < entries.len() ==> text_lt(#[trigger] entries[i].0@, #[trigger] entries[j].0@)
}

/// The entries of a string map in key order (`BTreeMap::iter`, which std documents as
/// sorted by key), copied out.
#[verifier::external_body]
pub(crate) fn map_entries(m: &BTreeMap<String, String>) -> (r: Vec<(String, String)>)
    ensures
        sorted_entries_of(m@, r@),
{
    m.iter().map(|(k, v)| (k.clone(), v.clone())).collect()
}

/// `entries` lists the entries of `m`, in strictly increasing key order.
pub open spec fn lists_text_map(entries: Seq<(Seq<char>, Seq<char>)>, m: Map<Seq<char>, Seq<char>>) -> bool {
    &&& forall|i: int| 0 <= i < entries.len() ==> #[trigger] m.contains_key(entries[i].0) && m[entries[i].0] == entries[i].1
    &&& forall|k: Seq<char>| #[trigger] m.contains_key(k) ==> exists|i: int| 0 <= i < entries.len() && entries[i].0 == k
    &&& forall|i: int, j: int| 0 <= i < j < entries.len() ==> text_lt(#[trigger] entries[i].0, #[trigger] entries[j].0)
}

/// `key: value` for each entry, joined with `; `.
pub open spec fn css_text(entries: Seq<(Seq<char>, Seq<char>)>) -> Seq<char>
    decreases entries.len(),
{
    if entries.len() == 0 {
        Seq::empty()
    } else if entries.len() == 1 {
        entries[0].0 + ": "@ + entries[0].1
    } else {
        css_text(entries.drop_last()) + "; "@ + entries.last().0 + ": "@ + entries.last().1
    }
}

/// The pairs whose value is safe, each value sanitized.
pub open spec fn safe_pairs(pairs: Seq<(Seq<char>, Seq<char>)>) -> Seq<(Seq<char>, Seq<char>)>
    decreases pairs.len(),
{
    if pairs.len() == 0 {
        Seq::empty()
    } else {
        let rest = safe_pairs(pairs.drop_last());
        match sanitized(pairs.last().1) {
            Some(v) => rest.push((pairs.last().0, v)),
            None => rest,
        }
    }
}

impl IrInlineStyle {
    /// The style with each pair whose value is safe, the value sanitized; a later pair
    /// for a key replaces an earlier one.
    pub fn from_pairs(pairs: Vec<(String, String)>) -> (style: Self)
        ensures
            text_view(style.properties@) == text_map(safe_pairs(pairs@.map_values(|p: (String, String)| (p.0@, p.1@)))),
            text_keys_distinct(style.properties@),
            pairs@.len() == 0 ==> style.properties@.is_empty(),
    {
        let ghost pv = pairs@.map_values(|p: (String, String)| (p.0@, p.1@));
        let mut properties: BTreeMap<String, String> = BTreeMap::new();
        proof {
            lemma_empty_text_map(properties@);
            assert(pv.take(0) =~= Seq::<(Seq<char>, Seq<char>)>::empty());
        }
        let mut i: usize = 0;
        while i < pairs.len()
            invariant
                i <= pairs@.len(),
                pv == pairs@.map_values(|p: (String, String)| (p.0@, p.1@)),
                pairs@.len() == 0 ==> properties@.is_empty(),
                text_keys_distinct(properties@),
                text_view(properties@) == text_map(safe_pairs(pv.take(i as int))),
            decreases pairs@.len() - i,
        {
            proof {
                assert(pv.take(i + 1).drop_last() =~= pv.take(i as int));
                assert(pv[i as int] == (pairs@[i as int].0@, pairs@[i as int].1@));
            }
            match sanitize_style_value(pairs[i].1.as_str()) {
                Some(v) => {
                    let k = pairs[i].0.clone();
                    proof {
                        assert(pv.take(i + 1).last() == pv[i as int]);
                        assert(sanitized(pv[i as int].1) == Some(v@));
                        assert(safe_pairs(pv.take(i + 1)) == safe_pairs(pv.take(i as int)).push((pv[i as int].0, v@)));
                        let sp = safe_pairs(pv.take(i as int));
                        assert(sp.push((pv[i as int].0, v@)).drop_last() =~= sp);
                        assert(k@ == pv[i as int].0);
                    }
                    insert_text_entry(&mut properties, k, v);
                },
                None => {
                    proof {
                        assert(pv.take(i + 1).last() == pv[i as int]);
                        assert(safe_pairs(pv.take(i + 1)) == safe_pairs(pv.take(i as int)));
                    }
                },
            }
            i = i + 1;
        }
        proof {
            assert(pv.take(pairs@.len() as int) =~= pv);
        }
        IrInlineStyle { properties }
    }

    /// The properties as CSS: `key: value` in key order, joined with `; `.
    pub fn to_css_string(&self) -> (css: String)
        ensures
            exists|e: Seq<(String, String)>| sorted_entries_of(self.properties@, e)
                && css@ == css_text(e.map_values(|p: (String, String)| (p.0@, p.1@))),
            text_keys_distinct(self.properties@) ==> exists|ev: Seq<(Seq<char>, Seq<char>)>|
                lists_text_map(ev, text_view(self.properties@)) && css@ == #[trigger] css_text(ev),
    {
        let entries = map_entries(&self.properties);
        let ghost ev = entries@.map_values(|p: (String, String)| (p.0@, p.1@));
        let mut out = String::new();
        let mut i: usize = 0;
        while i < entries.len()
            invariant
                i <= entries@.len(),
                ev == entries@.map_values(|p: (String, String)| (p.0@, p.1@)),
                out@ == css_text(ev.take(i as int)),
            decreases entries@.len() - i,
        {
            proof {
                assert(ev.take(i + 1).drop_last() =~= ev.take(i as int));
            }
            if i > 0 {
                out.append("; ");
            }
            out.append(entries[i].0.as_str());
            out.append(": ");
            out.append(entries[i].1.as_str());
            proof {
                if i == 0 {
                    assert(ev.take(1).len() == 1);
                    assert(out@ =~= css_text(ev.take(1)));
                } else {
                    assert(out@ =~= css_text(ev.take(i + 1)));
                }
            }
            i = i + 1;
        }
        proof {
            assert(ev.take(i as int) =~= ev);
            let m = self.properties@;
            if text_keys_distinct(m) {
                let tv = text_view(m);
                assert forall|j: int| 0 <= j < ev.len() implies #[trigger] tv.contains_key(ev[j].0) && tv[ev[j].0] == ev[j].1 by {
                    let s = entries@[j].0;
                    assert(m.contains_key(s));
                    let c = choose|c: String| m.contains_key(c) && c@ == s@;
                    assert(c == s);
                }
                assert forall|k: Seq<char>| #[trigger] tv.contains_key(k) implies exists|j: int| 0 <= j < ev.len() && ev[j].0 == k by {
                    let s = choose|s: String| m.contains_key(s) && s@ == k;
                    let j = choose|j: int| 0 <= j < entries@.len() && entries@[j].0 == s;
                    assert(ev[j].0 == k);
                }
                assert(lists_text_map(ev, tv));
            }
        }
        out
    }
}

} // verus!

verus! {

/// A character of a property name: a small ASCII letter or a dash.
pub open spec fn name_char(c: char) -> bool {
    ('a' <= c && c <= 'z') || c == '-'
}

/// The scanner reads a property name without changing its state.
proof fn lemma_scan_name(s: Seq<char>, n: nat)
    requires
        n <= s.len(),
        forall|i: int| 0 <= i < n ==> name_char(#[trigger] s[i]),
    ensures
        scan(s, n) == (None::<char>, 0nat, false, 0int, Seq::<(int, int)>::empty()),
    decreases n,
{
    if n > 0 {
        lemma_scan_name(s, (n - 1) as nat);
        assert(name_char(s[n - 1]));
    }
}

/// Inside an open quote, text without that quote or a backslash leaves the scanner in
/// that quote, with no segment closed.
proof fn lemma_scan_quoted(s: Seq<char>, quote: char, from: nat, n: nat)
    requires
        from <= n <= s.len(),
        scan(s, from) == (Some(quote), 0nat, false, 0int, Seq::<(int, int)>::empty()),
        forall|i: int| from <= i < n ==> #[trigger] s[i] != quote && s[i] != '\\',
    ensures
        scan(s, n) == (Some(quote), 0nat, false, 0int, Seq::<(int, int)>::empty()),
    decreases n - from,
{
    if n > from {
        lemma_scan_quoted(s, quote, from, (n - 1) as nat);
        assert(s[n - 1] != quote && s[n - 1] != '\\');
    }
}

/// `s` begins and ends with characters that are not white space: trimming keeps it.
proof fn lemma_trim_keeps(s: Seq<char>)
    requires
        s.len() > 0,
        !is_white(s[0]),
        !is_white(s.last()),
    ensures
        trim(s) == s,
{
    assert(trim_start(s) == s);
}

/// A comma or semicolon inside a quoted value does not end the declaration: for an
/// allowed property `k` and a value `'v'` or `"v"` in quotes, whose text holds neither
/// that quote nor a backslash and which the sanitizer accepts, the style string `k:'v'`
/// sets exactly `k` to the quoted value, whatever commas, semicolons or parentheses `v`
/// holds.
pub proof fn law_quoted_value_is_one_declaration(k: Seq<char>, quote: char, v: Seq<char>)
    requires
        allowed_properties().contains(k),
        k.len() > 0,
        forall|i: int| 0 <= i < k.len() ==> name_char(#[trigger] k[i]),
        quote == '\'' || quote == '"',
        forall|i: int| 0 <= i < v.len() ==> #[trigger] v[i] != quote && v[i] != '\\',
        !unsafe_value(seq![quote] + v + seq![quote]),
    ensures
        style_properties(k + seq![':', quote] + v + seq![quote]) == map![k => seq![quote] + v + seq![quote]],
{
    let q = seq![quote] + v + seq![quote];
    let s = k + seq![':', quote] + v + seq![quote];
    let l: int = k.len() as int;
    let n: int = s.len() as int;
    assert(n == l + 3 + v.len());
    assert forall|i: int| 0 <= i < l implies name_char(#[trigger] s[i]) by {
        assert(s[i] == k[i]);
    }
    lemma_scan_name(s, l as nat);
    assert(s[l] == ':');
    assert(scan(s, (l + 1) as nat) == scan(s, l as nat));
    assert(s[l + 1] == quote);
    assert(scan(s, (l + 2) as nat) == (Some(quote), 0nat, false, 0int, Seq::<(int, int)>::empty()));
    assert forall|i: int| l + 2 <= i < n - 1 implies #[trigger] s[i] != quote && s[i] != '\\' by {
        assert(s[i] == v[i - l - 2]);
    }
    lemma_scan_quoted(s, quote, (l + 2) as nat, (n - 1) as nat);
    assert(s[n - 1] == quote);
    assert(scan(s, n as nat) == (None::<char>, 0nat, false, 0int, Seq::<(int, int)>::empty()));
    assert(segments(s) == seq![(0int, n)]);
    assert(s.subrange(0, n) =~= s);
    assert(declarations(s) == declarations_upto(s, seq![(0int, n)], 1));
    // The declaration of the whole string.
    assert(name_char(s[0]));
    lemma_trim_keeps(s);
    lemma_first_index_of(s, ':');
    let c = first_index_of(s, ':');
    if c < 0 {
        assert(s[l] != ':');
    } else if c < l {
        assert(name_char(s[c]));
    } else if c > l {
        assert(s[l] != ':');
    }
    assert(c == l);
    assert(s.subrange(0, l) =~= k);
    assert(name_char(k[0]) && name_char(k[k.len() - 1]));
    lemma_trim_keeps(k);
    assert(lower_text(k) =~= k) by {
        assert forall|i: int| 0 <= i < k.len() implies #[trigger] lower_text(k)[i] == k[i] by {
            assert(name_char(k[i]));
        }
    }
    assert(s.subrange(l + 1, n) =~= q);
    lemma_trim_keeps(q);
    assert(sanitized(q) == Some(q));
    assert(declaration_of(s) == Some((k, q)));
    let segs = seq![(0int, n)];
    assert(segs[0] == (0int, n));
    assert(declarations_upto(s, segs, 0) == Seq::<(Seq<char>, Seq<char>)>::empty());
    assert(declarations_upto(s, segs, 1) == Seq::<(Seq<char>, Seq<char>)>::empty().push((k, q)));
    assert(Seq::<(Seq<char>, Seq<char>)>::empty().push((k, q)) =~= seq![(k, q)]);
    assert(declarations(s) == seq![(k, q)]);
    assert(seq![(k, q)].drop_last() =~= Seq::<(Seq<char>, Seq<char>)>::empty());
    assert(seq![(k, q)].last() == (k, q));
    assert(text_map(seq![(k, q)]) == text_map(Seq::<(Seq<char>, Seq<char>)>::empty()).insert(k, q));
    assert(style_properties(s) =~= map![k => q]);
}

/// Outside quotes and parentheses, property-name characters and colons leave the
/// scanner's state as it is.
proof fn lemma_scan_plain(s: Seq<char>, from: nat, n: nat)
    requires
        from <= n <= s.len(),
        scan(s, from) == (None::<char>, 0nat, false, 0int, Seq::<(int, int)>::empty()),
        forall|i: int| from <= i < n ==> name_char(#[trigger] s[i]) || s[i] == ':',
    ensures
        scan(s, n) == (None::<char>, 0nat, false, 0int, Seq::<(int, int)>::empty()),
    decreases n - from,
{
    if n > from {
        lemma_scan_plain(s, from, (n - 1) as nat);
        assert(name_char(s[n - 1]) || s[n - 1] == ':');
    }
}

/// Inside one open parenthesis, text without parentheses, quotes or backslashes leaves
/// the scanner there, with no segment closed.
proof fn lemma_scan_in_parens(s: Seq<char>, from: nat, n: nat)
    requires
        from <= n <= s.len(),
        scan(s, from) == (None::<char>, 1nat, false, 0int, Seq::<(int, int)>::empty()),
        forall|i: int| from <= i < n ==> plain_arg_char(#[trigger] s[i]),
    ensures
        scan(s, n) == (None::<char>, 1nat, false, 0int, Seq::<(int, int)>::empty()),
    decreases n - from,
{
    if n > from {
        lemma_scan_in_parens(s, from, (n - 1) as nat);
        assert(plain_arg_char(s[n - 1]));
    }
}

/// A character that may stand inside the parentheses of a function-call value:
/// anything but a parenthesis, a quote or a backslash.
pub open spec fn plain_arg_char(c: char) -> bool {
    c != '(' && c != ')' && c != '\'' && c != '"' && c != '\\'
}

/// A comma or semicolon inside parentheses does not end the declaration: for an allowed
/// property `k`, a function name `f` (small letters and dashes, possibly empty) and
/// arguments `v` without parentheses, quotes or backslashes, where the sanitizer accepts
/// `f(v)`, the style string `k:f(v)` sets exactly `k` to `f(v)`, whatever commas or
/// semicolons `v` holds (as in `fill:rgb(255,128,0)`).
pub proof fn law_parenthesized_value_is_one_declaration(k: Seq<char>, f: Seq<char>, v: Seq<char>)
    requires
        allowed_properties().contains(k),
        k.len() > 0,
        forall|i: int| 0 <= i < k.len() ==> name_char(#[trigger] k[i]),
        forall|i: int| 0 <= i < f.len() ==> name_char(#[trigger] f[i]),
        forall|i: int| 0 <= i < v.len() ==> plain_arg_char(#[trigger] v[i]),
        !unsafe_value(f + seq!['('] + v + seq![')']),
    ensures
        style_properties(k + seq![':'] + f + seq!['('] + v + seq![')']) == map![k => f + seq!['('] + v + seq![')']],
{
    let q = f + seq!['('] + v + seq![')'];
    let s = k + seq![':'] + f + seq!['('] + v + seq![')'];
    let l: int = k.len() as int;
    let m: int = f.len() as int;
    let n: int = s.len() as int;
    assert(n == l + m + 3 + v.len());
    assert(scan(s, 0) == (None::<char>, 0nat, false, 0int, Seq::<(int, int)>::empty()));
    assert forall|i: int| 0 <= i < l + 1 + m implies name_char(#[trigger] s[i]) || s[i] == ':' by {
        if i < l {
            assert(s[i] == k[i]);
        } else if i > l {
            assert(s[i] == f[i - l - 1]);
        }
    }
    lemma_scan_plain(s, 0, (l + 1 + m) as nat);
    assert(s[l + 1 + m] == '(');
    assert(scan(s, (l + 2 + m) as nat) == (None::<char>, 1nat, false, 0int, Seq::<(int, int)>::empty()));
    assert forall|i: int| l + 2 + m <= i < n - 1 implies plain_arg_char(#[trigger] s[i]) by {
        assert(s[i] == v[i - l - 2 - m]);
    }
    lemma_scan_in_parens(s, (l + 2 + m) as nat, (n - 1) as nat);
    assert(s[n - 1] == ')');
    assert(scan(s, n as nat) == (None::<char>, 0nat, false, 0int, Seq::<(int, int)>::empty()));
    assert(segments(s) == seq![(0int, n)]);
    assert(s.subrange(0, n) =~= s);
    assert(declarations(s) == declarations_upto(s, seq![(0int, n)], 1));
    assert(name_char(s[0]));
    lemma_trim_keeps(s);
    lemma_first_index_of(s, ':');
    assert(s[l] == ':');
    let c = first_index_of(s, ':');
    if c < 0 {
        assert(s[l] != ':');
    } else if c < l {
        assert(s[c] == k[c]);
        assert(name_char(k[c]));
    } else if c > l {
        assert(s[l] != ':');
    }
    assert(c == l);
    assert(s.subrange(0, l) =~= k);
    assert(name_char(k[0]) && name_char(k[k.len() - 1]));
    lemma_trim_keeps(k);
    assert(lower_text(k) =~= k) by {
        assert forall|i: int| 0 <= i < k.len() implies #[trigger] lower_text(k)[i] == k[i] by {
            assert(name_char(k[i]));
        }
    }
    assert(s.subrange(l + 1, n) =~= q);
    if m > 0 {
        assert(q[0] == f[0]);
        assert(name_char(f[0]));
    } else {
        assert(q[0] == '(');
    }
    lemma_trim_keeps(q);
    assert(sanitized(q) == Some(q));
    assert(declaration_of(s) == Some((k, q)));
    let segs = seq![(0int, n)];
    assert(segs[0] == (0int, n));
    assert(declarations_upto(s, segs, 0) == Seq::<(Seq<char>, Seq<char>)>::empty());
    assert(declarations_upto(s, segs, 1) == Seq::<(Seq<char>, Seq<char>)>::empty().push((k, q)));
    assert(Seq::<(Seq<char>, Seq<char>)>::empty().push((k, q)) =~= seq![(k, q)]);
    assert(declarations(s) == seq![(k, q)]);
    assert(seq![(k, q)].drop_last() =~= Seq::<(Seq<char>, Seq<char>)>::empty());
    assert(seq![(k, q)].last() == (k, q));
    assert(text_map(seq![(k, q)]) == text_map(Seq::<(Seq<char>, Seq<char>)>::empty()).insert(k, q));
    assert(style_properties(s) =~= map![k => q]);
}

} // verus!
