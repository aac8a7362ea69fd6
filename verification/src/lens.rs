//! Source lenses: the source text behind each rendered element, found through its span,
//! and edits that replace it.
use vstd::prelude::*;
use vstd::string::{StringExecFns, StringSliceAdditionalSpecFns};
use vstd::utf8::{decode_utf8, encode_scalar, encode_utf8, is_char_boundary};
use crate::diagnostics::{MermaidTextRange, Span, indexed_id, node_id_text, mermaid_cluster_element_id, mermaid_edge_element_id, mermaid_node_element_id};
use crate::taxonomy::{DiagramType, MermaidSourceMapKind};
use crate::text::{decimal, decimal_string};
use crate::model::{IrCluster, IrEdge, IrNode, MermaidSourceMapEntry, MermaidLensBinding, MermaidLensEdit, MermaidLensEditResult, MermaidLensError, MermaidSourceMap};

verus! {

/// The byte offsets at which the lines of `b` start: 0 and each offset just after a
/// newline, among the first `k` bytes.
pub open spec fn line_starts_upto(b: Seq<u8>, k: nat) -> Seq<int>
    decreases k,
{
    if k == 0 {
        seq![0int]
    } else if b[k - 1] == 10u8 {
        line_starts_upto(b, (k - 1) as nat).push(k as int)
    } else {
        line_starts_upto(b, (k - 1) as nat)
    }
}

pub open spec fn line_start_offsets(b: Seq<u8>) -> Seq<int> {
    line_starts_upto(b, b.len())
}

/// The end of the line that ends at `e` (exclusive), without its newline and a carriage
/// return before it.
pub open spec fn strip_line_end(b: Seq<u8>, e: int) -> int {
    let e1 = if e >= 1 && b[e - 1] == 10u8 { e - 1 } else { e };
    if e1 >= 1 && b[e1 - 1] == 13u8 { e1 - 1 } else { e1 }
}

/// The byte offset of column `col` (1-based, in characters) of line `line` (1-based); the
/// column just past the last character gives the line's end.
pub open spec fn byte_index_at(b: Seq<u8>, line: int, col: int) -> Option<int> {
    let starts = line_start_offsets(b);
    if line <= 0 || col <= 0 || line > starts.len() {
        None
    } else {
        let ls = starts[line - 1];
        let le = strip_line_end(b, if line < starts.len() { starts[line] } else { b.len() as int });
        if text_between(b, ls, le) is None {
            None
        } else {
            let chars = decode_utf8(b.subrange(ls, le));
            if col <= chars.len() + 1 {
                Some(ls + encode_utf8(chars.take(col - 1)).len())
            } else {
                None
            }
        }
    }
}

/// `a + 1`, or `usize::MAX` when that overflows.
pub open spec fn saturating_inc(a: usize) -> int {
    if a < usize::MAX { a + 1 } else { usize::MAX as int }
}

/// The byte range of `span` in the source `b`: the span's own byte offsets when they make
/// a non-empty range, else the range its lines and columns name (the end column
/// inclusive).
pub open spec fn span_range(b: Seq<u8>, span: Span) -> Option<(int, int)> {
    if span.unknown() {
        None
    } else if span.end.byte > span.start.byte {
        Some((span.start.byte as int, span.end.byte as int))
    } else {
        match byte_index_at(b, span.start.line as int, span.start.col as int) {
            None => None,
            Some(s) => match byte_index_at(b, span.end.line as int, saturating_inc(span.end.col)) {
                None => None,
                Some(e) => if e >= s { Some((s, e)) } else { None },
            },
        }
    }
}

/// The text of bytes `a..e` of `b`, when they bound whole characters.
pub open spec fn text_between(b: Seq<u8>, a: int, e: int) -> Option<Seq<char>> {
    if 0 <= a <= e <= b.len() && is_char_boundary(b, a) && is_char_boundary(b, e) {
        Some(decode_utf8(b.subrange(a, e)))
    } else {
        None
    }
}

pub open spec fn range_view(r: Option<MermaidTextRange>) -> Option<(int, int)> {
    match r {
        Some(t) => Some((t.start_byte as int, t.end_byte as int)),
        None => None,
    }
}

pub open spec fn opt_text(o: Option<String>) -> Option<Seq<char>> {
    match o {
        Some(s) => Some(s@),
        None => None,
    }
}

proof fn lemma_encode_push(a: Seq<char>, c: char)
    ensures
        encode_utf8(a.push(c)) == encode_utf8(a) + encode_scalar(c as u32),
    decreases a.len(),
{
    if a.len() == 0 {
        assert(a.push(c).drop_first() =~= Seq::<char>::empty());
        assert(encode_utf8(a.push(c)) =~= encode_scalar(c as u32) + encode_utf8(Seq::<char>::empty()));
    } else {
        assert(a.push(c).drop_first() =~= a.drop_first().push(c));
        lemma_encode_push(a.drop_first(), c);
        assert(encode_utf8(a.push(c)) =~= encode_scalar(a[0] as u32) + encode_utf8(a.drop_first().push(c)));
    }
}

/// The number of bytes that `c` takes in UTF-8.
fn utf8_width(c: char) -> (w: usize)
    ensures
        w == encode_scalar(c as u32).len(),
        1 <= w <= 4,
{
    proof {
        vstd::utf8::char_is_scalar(c);
    }
    let v = c as u32;
    if v <= 0x7F {
        1
    } else if v <= 0x7FF {
        2
    } else if v <= 0xFFFF {
        3
    } else {
        4
    }
}

/// The offsets at which the lines of `bytes` start.
fn source_line_starts(bytes: &[u8]) -> (starts: Vec<usize>)
    ensures
        starts@.map_values(|x: usize| x as int) == line_start_offsets(bytes@),
        forall|i: int| 0 <= i < starts@.len() ==> (#[trigger] starts@[i]) <= bytes@.len(),
{
    let mut starts: Vec<usize> = vec![0];
    let mut i: usize = 0;
    while i < bytes.len()
        invariant
            i <= bytes@.len(),
            starts@.map_values(|x: usize| x as int) == line_starts_upto(bytes@, i as nat),
            forall|j: int| 0 <= j < starts@.len() ==> (#[trigger] starts@[j]) <= i,
        decreases bytes@.len() - i,
    {
        let ghost before = starts@;
        if bytes[i] == 10u8 {
            starts.push(i + 1);
            proof {
                assert(starts@.map_values(|x: usize| x as int) =~= before.map_values(|x: usize| x as int).push((i + 1) as int));
            }
        }
        i = i + 1;
    }
    starts
}

proof fn lemma_encode_concat(a: Seq<char>, b: Seq<char>)
    ensures
        encode_utf8(a + b) == encode_utf8(a) + encode_utf8(b),
    decreases a.len(),
{
    if a.len() == 0 {
        assert(a + b =~= b);
        assert(encode_utf8(a) =~= Seq::<u8>::empty());
        assert(encode_utf8(a) + encode_utf8(b) =~= encode_utf8(b));
    } else {
        assert((a + b).drop_first() =~= a.drop_first() + b);
        lemma_encode_concat(a.drop_first(), b);
        assert(encode_utf8(a + b) =~= encode_scalar(a[0] as u32) + encode_utf8(a.drop_first() + b));
    }
}

/// `str::get` with a byte range: the part of `s` between bytes `a` and `e`, when both are
/// character boundaries with `a <= e <= s.len()`, else nothing.
#[verifier::external_body]
fn str_get(s: &str, a: usize, e: usize) -> (r: Option<&str>)
    ensures
        (r is Some) <==> (a <= e <= s.spec_bytes().len() && is_char_boundary(s.spec_bytes(), a as int)
            && is_char_boundary(s.spec_bytes(), e as int)),
        r matches Some(t) ==> t.spec_bytes() == s.spec_bytes().subrange(a as int, e as int),
{
    s.get(a..e)
}

/// The text of bytes `a..e` of `s`, as `str_get` finds it.
fn text_slice(s: &str, a: usize, e: usize) -> (r: Option<&str>)
    ensures
        match r {
            Some(t) => text_between(s.spec_bytes(), a as int, e as int) == Some(t@),
            None => text_between(s.spec_bytes(), a as int, e as int) is None,
        },
        r matches Some(t) ==> t.spec_bytes() == s.spec_bytes().subrange(a as int, e as int),
{
    let r = str_get(s, a, e);
    proof {
        if let Some(t) = r {
            vstd::utf8::encode_utf8_decode_utf8(t@);
        }
    }
    r
}

fn byte_index_for_line_col(source: &str, line_starts: &Vec<usize>, line: usize, col: usize) -> (r: Option<usize>)
    requires
        line_starts@.map_values(|x: usize| x as int) == line_start_offsets(source.spec_bytes()),
        forall|i: int| 0 <= i < line_starts@.len() ==> (#[trigger] line_starts@[i]) <= source.spec_bytes().len(),
    ensures
        match r {
            Some(x) => byte_index_at(source.spec_bytes(), line as int, col as int) == Some(x as int),
            None => byte_index_at(source.spec_bytes(), line as int, col as int) is None,
        },
{
    let ghost b = source.spec_bytes();
    let ghost starts = line_start_offsets(b);
    if line == 0 || col == 0 {
        return None;
    }
    if line - 1 >= line_starts.len() {
        return None;
    }
    proof {
        assert(starts.len() == line_starts@.len());
        assert(starts[line - 1] == line_starts@[line - 1] as int);
    }
    let bytes = source.as_bytes();
    let line_start = line_starts[line - 1];
    let mut line_end = if line < line_starts.len() {
        proof {
            assert(starts[line as int] == line_starts@[line as int] as int);
        }
        line_starts[line]
    } else {
        bytes.len()
    };
    let ghost e0: int = if line < starts.len() { starts[line as int] } else { b.len() as int };
    proof {
        assert(bytes@ == b);
        assert(line_end == e0);
        assert(line_start == starts[line - 1]);
    }
    if line_end >= 1 && bytes[line_end - 1] == 10u8 {
        line_end = line_end - 1;
    }
    if line_end >= 1 && bytes[line_end - 1] == 13u8 {
        line_end = line_end - 1;
    }
    proof {
        assert(line_end == strip_line_end(b, e0));
    }
    let line_slice = match text_slice(source, line_start, line_end) {
        Some(t) => t,
        None => {
            return None;
        },
    };
    let chars = crate::text::chars_of(line_slice);
    proof {
        vstd::utf8::encode_utf8_decode_utf8(line_slice@);
        assert(line_slice.spec_bytes() == b.subrange(line_start as int, line_end as int));
        assert(encode_utf8(chars@).len() == line_end - line_start);
        assert(decode_utf8(b.subrange(line_start as int, line_end as int)) == chars@);
        assert(byte_index_at(b, line as int, col as int) == (if col <= chars@.len() + 1 {
            Some(line_start + encode_utf8(chars@.take(col - 1)).len())
        } else {
            None
        }));
    }
    let mut offset: usize = 0;
    let mut k: usize = 0;
    while k < chars.len()
        invariant
            k <= chars@.len(),
            line_start <= line_end,
            encode_utf8(chars@).len() == line_end - line_start,
            offset == encode_utf8(chars@.take(k as int)).len(),
            offset <= line_end - line_start,
            b == source.spec_bytes(),
            byte_index_at(b, line as int, col as int) == (if col <= chars@.len() + 1 {
                Some(line_start + encode_utf8(chars@.take(col - 1)).len())
            } else {
                None
            }),
            1 <= col,
            k <= col - 1,
        decreases chars@.len() - k,
    {
        if k == col - 1 {
            return Some(line_start + offset);
        }
        let w = utf8_width(chars[k]);
        proof {
            assert(chars@.take(k + 1) =~= chars@.take(k as int).push(chars@[k as int]));
            lemma_encode_push(chars@.take(k as int), chars@[k as int]);
            assert(chars@ =~= chars@.take(k + 1) + chars@.skip(k + 1));
            lemma_encode_concat(chars@.take(k + 1), chars@.skip(k + 1));
        }
        offset = offset + w;
        k = k + 1;
    }
    proof {
        assert(chars@.take(k as int) =~= chars@);
    }
    if k == col - 1 {
        Some(line_end)
    } else {
        None
    }
}

/// The byte range that `span` covers in `source`.
pub fn resolve_span_text_range(source: &str, span: Span) -> (r: Option<MermaidTextRange>)
    ensures
        range_view(r) == span_range(source.spec_bytes(), span),
{
    if span.is_unknown() {
        return None;
    }
    if span.end.byte > span.start.byte {
        return Some(MermaidTextRange { start_byte: span.start.byte, end_byte: span.end.byte });
    }
    let line_starts = source_line_starts(source.as_bytes());
    let start_byte = match byte_index_for_line_col(source, &line_starts, span.start.line, span.start.col) {
        Some(x) => x,
        None => {
            return None;
        },
    };
    let end_col_exclusive = span.end.col.saturating_add(1);
    let end_byte = match byte_index_for_line_col(source, &line_starts, span.end.line, end_col_exclusive) {
        Some(x) => x,
        None => {
            return None;
        },
    };
    if end_byte >= start_byte {
        Some(MermaidTextRange { start_byte, end_byte })
    } else {
        None
    }
}

/// The text a resolved range covers.
pub open spec fn snippet_of(b: Seq<u8>, range: Option<(int, int)>) -> Option<Seq<char>> {
    match range {
        Some((a, e)) => text_between(b, a, e),
        None => None,
    }
}

/// The binding of a source map entry to the source `b`.
pub open spec fn binds(binding: MermaidLensBinding, entry: crate::model::MermaidSourceMapEntry, b: Seq<u8>) -> bool {
    &&& binding.kind == entry.kind
    &&& binding.index == entry.index
    &&& binding.element_id@ == entry.element_id@
    &&& opt_text(binding.source_id) == opt_text(entry.source_id)
    &&& binding.span == entry.span
    &&& range_view(binding.text_range) == span_range(b, entry.span)
    &&& opt_text(binding.snippet) == snippet_of(b, span_range(b, entry.span))
}

fn clone_opt_string(o: &Option<String>) -> (r: Option<String>)
    ensures
        opt_text(r) == opt_text(*o),
{
    match o {
        Some(s) => Some(s.clone()),
        None => None,
    }
}

/// Bind every source map entry to the text of `source` it covers.
pub fn build_lens_bindings(source: &str, source_map: &MermaidSourceMap) -> (r: Vec<MermaidLensBinding>)
    ensures
        r@.len() == source_map.entries@.len(),
        forall|i: int| 0 <= i < r@.len() ==> binds(#[trigger] r@[i], source_map.entries@[i], source.spec_bytes()),
{
    let mut out: Vec<MermaidLensBinding> = Vec::new();
    let mut i: usize = 0;
    while i < source_map.entries.len()
        invariant
            i <= source_map.entries@.len(),
            out@.len() == i,
            forall|j: int| 0 <= j < i ==> binds(#[trigger] out@[j], source_map.entries@[j], source.spec_bytes()),
        decreases source_map.entries@.len() - i,
    {
        let entry = &source_map.entries[i];
        let text_range = resolve_span_text_range(source, entry.span);
        let snippet = match text_range {
            Some(range) => match text_slice(source, range.start_byte, range.end_byte) {
                Some(t) => Some(t.to_owned()),
                None => None,
            },
            None => None,
        };
        out.push(MermaidLensBinding {
            kind: entry.kind,
            index: entry.index,
            element_id: entry.element_id.clone(),
            source_id: clone_opt_string(&entry.source_id),
            span: entry.span,
            text_range,
            snippet,
        });
        i = i + 1;
    }
    out
}

/// The first source map entry for element `id`.
pub open spec fn first_entry_for(es: Seq<crate::model::MermaidSourceMapEntry>, id: Seq<char>) -> Option<int> {
    if exists|i: int| 0 <= i < es.len() && (#[trigger] es[i]).element_id@ == id {
        Some(choose|i: int| 0 <= i < es.len() && (#[trigger] es[i]).element_id@ == id
            && forall|j: int| 0 <= j < i ==> (#[trigger] es[j]).element_id@ != id)
    } else {
        None
    }
}

/// Replace the source text of the first element named by the edit: an error when the
/// element is not in the source map, or its span does not cover whole characters of
/// `source`.
pub fn apply_lens_edit(source: &str, source_map: &MermaidSourceMap, edit: &MermaidLensEdit)
    -> (r: Result<MermaidLensEditResult, MermaidLensError>)
    ensures
        match first_entry_for(source_map.entries@, edit.element_id@) {
            None => r matches Err(MermaidLensError::ElementNotFound(id)) && id@ == edit.element_id@,
            Some(i) => match snippet_of(source.spec_bytes(), span_range(source.spec_bytes(), source_map.entries@[i].span)) {
                None => r matches Err(MermaidLensError::UnresolvedSpan(id)) && id@ == edit.element_id@,
                Some(previous) => r matches Ok(res) && {
                    let (a, e) = span_range(source.spec_bytes(), source_map.entries@[i].span)->0;
                    &&& res.element_id@ == edit.element_id@
                    &&& res.replaced_range.start_byte == a && res.replaced_range.end_byte == e
                    &&& res.previous_snippet@ == previous
                    &&& res.replacement@ == edit.replacement@
                    &&& res.updated_source@ == decode_utf8(source.spec_bytes().subrange(0, a)) + edit.replacement@
                        + decode_utf8(source.spec_bytes().subrange(e, source.spec_bytes().len() as int))
                },
            },
        },
{
    let ghost b = source.spec_bytes();
    let ghost es = source_map.entries@;
    let bindings = build_lens_bindings(source, source_map);
    let mut k: usize = 0;
    while k < bindings.len()
        invariant
            bindings@.len() == es.len(),
            forall|j: int| 0 <= j < bindings@.len() ==> binds(#[trigger] bindings@[j], es[j], b),
            k <= bindings@.len(),
            forall|j: int| 0 <= j < k ==> (#[trigger] es[j]).element_id@ != edit.element_id@,
        ensures
            k <= bindings@.len(),
            forall|j: int| 0 <= j < k ==> (#[trigger] es[j]).element_id@ != edit.element_id@,
            k < bindings@.len() ==> es[k as int].element_id@ == edit.element_id@,
        decreases bindings@.len() - k,
    {
        proof {
            assert(binds(bindings@[k as int], es[k as int], b));
        }
        if bindings[k].element_id == edit.element_id {
            break;
        }
        k = k + 1;
    }
    if k == bindings.len() {
        proof {
            assert(!(exists|i: int| 0 <= i < es.len() && (#[trigger] es[i]).element_id@ == edit.element_id@));
        }
        return Err(MermaidLensError::ElementNotFound(edit.element_id.clone()));
    }
    let binding = &bindings[k];
    proof {
        assert(binds(bindings@[k as int], es[k as int], b));
        assert(es[k as int].element_id@ == edit.element_id@);
        let c = choose|i: int| 0 <= i < es.len() && (#[trigger] es[i]).element_id@ == edit.element_id@
            && forall|j: int| 0 <= j < i ==> (#[trigger] es[j]).element_id@ != edit.element_id@;
        assert(first_entry_for(es, edit.element_id@) == Some(c));
        if c < k {
            assert(es[c].element_id@ != edit.element_id@);
        }
        if c > k {
            assert(es[k as int].element_id@ != edit.element_id@);
        }
    }
    let replaced_range = match binding.text_range {
        Some(range) => range,
        None => {
            return Err(MermaidLensError::UnresolvedSpan(edit.element_id.clone()));
        },
    };
    let previous_snippet = match &binding.snippet {
        Some(text) => text.clone(),
        None => {
            return Err(MermaidLensError::UnresolvedSpan(edit.element_id.clone()));
        },
    };
    proof {
        vstd::utf8::encode_utf8_valid_utf8(source@);
        vstd::utf8::is_char_boundary_start_end_of_seq(b);
    }
    let head = match text_slice(source, 0, replaced_range.start_byte) {
        Some(t) => t,
        None => {
            return Err(MermaidLensError::UnresolvedSpan(edit.element_id.clone()));
        },
    };
    let tail = match text_slice(source, replaced_range.end_byte, source.as_bytes().len()) {
        Some(t) => t,
        None => {
            return Err(MermaidLensError::UnresolvedSpan(edit.element_id.clone()));
        },
    };
    let mut updated_source = String::from_str(head);
    updated_source.append(edit.replacement.as_str());
    updated_source.append(tail);
    Ok(MermaidLensEditResult {
        element_id: binding.element_id.clone(),
        replaced_range,
        previous_snippet,
        replacement: edit.replacement.clone(),
        updated_source,
    })
}

/// What a source map entry says: kind, index, element id, source id and span.
pub type EntryView = (MermaidSourceMapKind, usize, Seq<char>, Option<Seq<char>>, Span);

pub open spec fn entry_view(e: MermaidSourceMapEntry) -> EntryView {
    (e.kind, e.index, e.element_id@, opt_text(e.source_id), e.span)
}

/// The entries of the first `k` nodes whose primary span is known.
pub open spec fn node_entries(nodes: Seq<IrNode>, k: nat) -> Seq<EntryView>
    decreases k,
{
    if k == 0 {
        Seq::empty()
    } else {
        let i = (k - 1) as nat;
        let node = nodes[i as int];
        node_entries(nodes, i) + if node.span_primary.unknown() {
            Seq::empty()
        } else {
            seq![(MermaidSourceMapKind::Node, i as usize, node_id_text(node.id@, i),
                if node.id@.len() == 0 { None } else { Some(node.id@) }, node.span_primary)]
        }
    }
}

/// The entries of the first `k` edges whose span is known.
pub open spec fn edge_entries(edges: Seq<IrEdge>, k: nat) -> Seq<EntryView>
    decreases k,
{
    if k == 0 {
        Seq::empty()
    } else {
        let i = (k - 1) as nat;
        edge_entries(edges, i) + if edges[i as int].span.unknown() {
            Seq::empty()
        } else {
            seq![(MermaidSourceMapKind::Edge, i as usize, indexed_id("fm-edge-"@, i), None, edges[i as int].span)]
        }
    }
}

/// The entries of the first `k` clusters whose span is known.
pub open spec fn cluster_entries(clusters: Seq<IrCluster>, k: nat) -> Seq<EntryView>
    decreases k,
{
    if k == 0 {
        Seq::empty()
    } else {
        let i = (k - 1) as nat;
        let c = clusters[i as int];
        cluster_entries(clusters, i) + if c.span.unknown() {
            Seq::empty()
        } else {
            seq![(MermaidSourceMapKind::Cluster, i as usize, indexed_id("fm-cluster-"@, i), Some(decimal(c.id.0 as nat)), c.span)]
        }
    }
}

/// The source map of a diagram: an entry for each node, then each edge, then each
/// cluster whose span is known, with its element id.
pub fn source_map(diagram_type: DiagramType, nodes: &[IrNode], edges: &[IrEdge], clusters: &[IrCluster])
    -> (m: MermaidSourceMap)
    ensures
        m.diagram_type == diagram_type,
        m.entries@.map_values(|e: MermaidSourceMapEntry| entry_view(e))
            == node_entries(nodes@, nodes@.len()) + edge_entries(edges@, edges@.len()) + cluster_entries(clusters@, clusters@.len()),
{
    let mut entries: Vec<MermaidSourceMapEntry> = Vec::new();
    let mut i: usize = 0;
    while i < nodes.len()
        invariant
            i <= nodes@.len(),
            entries@.map_values(|e: MermaidSourceMapEntry| entry_view(e)) == node_entries(nodes@, i as nat),
        decreases nodes@.len() - i,
    {
        let node = &nodes[i];
        let ghost before = entries@;
        if !node.span_primary.is_unknown() {
            let source_id = if node.id.as_str().is_empty() { None } else { Some(node.id.clone()) };
            entries.push(MermaidSourceMapEntry {
                kind: MermaidSourceMapKind::Node,
                index: i,
                element_id: mermaid_node_element_id(node.id.as_str(), i),
                source_id,
                span: node.span_primary,
            });
            proof {
                assert(entries@.map_values(|e: MermaidSourceMapEntry| entry_view(e))
                    =~= before.map_values(|e: MermaidSourceMapEntry| entry_view(e)) + seq![entry_view(entries@.last())]);
            }
        } else {
            proof {
                assert(node_entries(nodes@, (i + 1) as nat) =~= node_entries(nodes@, i as nat));
            }
        }
        i = i + 1;
    }
    let ghost after_nodes = entries@.map_values(|e: MermaidSourceMapEntry| entry_view(e));
    let mut i: usize = 0;
    while i < edges.len()
        invariant
            i <= edges@.len(),
            entries@.map_values(|e: MermaidSourceMapEntry| entry_view(e)) == after_nodes + edge_entries(edges@, i as nat),
        decreases edges@.len() - i,
    {
        let ghost before = entries@;
        if !edges[i].span.is_unknown() {
            entries.push(MermaidSourceMapEntry {
                kind: MermaidSourceMapKind::Edge,
                index: i,
                element_id: mermaid_edge_element_id(i),
                source_id: None,
                span: edges[i].span,
            });
            proof {
                assert(entries@.map_values(|e: MermaidSourceMapEntry| entry_view(e))
                    =~= before.map_values(|e: MermaidSourceMapEntry| entry_view(e)) + seq![entry_view(entries@.last())]);
            }
        } else {
            proof {
                assert(edge_entries(edges@, (i + 1) as nat) =~= edge_entries(edges@, i as nat));
            }
        }
        i = i + 1;
    }
    let ghost after_edges = entries@.map_values(|e: MermaidSourceMapEntry| entry_view(e));
    let mut i: usize = 0;
    while i < clusters.len()
        invariant
            i <= clusters@.len(),
            entries@.map_values(|e: MermaidSourceMapEntry| entry_view(e)) == after_edges + cluster_entries(clusters@, i as nat),
        decreases clusters@.len() - i,
    {
        let ghost before = entries@;
        if !clusters[i].span.is_unknown() {
            entries.push(MermaidSourceMapEntry {
                kind: MermaidSourceMapKind::Cluster,
                index: i,
                element_id: mermaid_cluster_element_id(i),
                source_id: Some(decimal_string(clusters[i].id.0 as u64)),
                span: clusters[i].span,
            });
            proof {
                assert(entries@.map_values(|e: MermaidSourceMapEntry| entry_view(e))
                    =~= before.map_values(|e: MermaidSourceMapEntry| entry_view(e)) + seq![entry_view(entries@.last())]);
            }
        } else {
            proof {
                assert(cluster_entries(clusters@, (i + 1) as nat) =~= cluster_entries(clusters@, i as nat));
            }
        }
        i = i + 1;
    }
    MermaidSourceMap { diagram_type, entries }
}

} // verus!
