//! The wire formats of the library: the DOT rendering of the link
//! graph, the JSON graph export `{"nodes": [...], "edges": [[a,b],...]}`
//! and the JSON crawl-state snapshot `{"queue": [[url, depth], ...],
//! "visited": [...]}`.
//!
//! Strings are emitted without escaping: a URL cannot contain a quote
//! or a backslash.  Each parser succeeds exactly on the texts its
//! emitter produces and returns the exact decoding, and equal texts
//! decode to equal values: both round trips are proved.

use vstd::prelude::*;
use vstd::string::StringExecFns;

verus! {

/// `s` holds no quote, so its JSON rendering needs no escaping.
pub open spec fn quote_free(s: Seq<char>) -> bool {
    !s.contains('"')
}

/// A JSON string literal: the text between plain quotes.
pub open spec fn json_string(s: Seq<char>) -> Seq<char> {
    seq!['"'] + s + seq!['"']
}

/// The items' JSON strings joined with commas.
pub open spec fn joined_strings(items: Seq<Seq<char>>) -> Seq<char>
    decreases items.len(),
{
    if items.len() == 0 {
        Seq::empty()
    } else if items.len() == 1 {
        json_string(items[0])
    } else {
        joined_strings(items.drop_last()) + seq![','] + json_string(items.last())
    }
}

/// A JSON array of strings.
pub open spec fn json_string_list(items: Seq<Seq<char>>) -> Seq<char> {
    seq!['['] + joined_strings(items) + seq![']']
}

/// A JSON two-string array.
pub open spec fn json_pair(a: Seq<char>, b: Seq<char>) -> Seq<char> {
    seq!['['] + json_string(a) + seq![','] + json_string(b) + seq![']']
}

/// The pairs' JSON arrays joined with commas.
pub open spec fn joined_pairs(pairs: Seq<(Seq<char>, Seq<char>)>) -> Seq<char>
    decreases pairs.len(),
{
    if pairs.len() == 0 {
        Seq::empty()
    } else if pairs.len() == 1 {
        json_pair(pairs[0].0, pairs[0].1)
    } else {
        joined_pairs(pairs.drop_last()) + seq![','] + json_pair(pairs.last().0, pairs.last().1)
    }
}

/// A JSON array of two-string arrays.
pub open spec fn json_pair_list(pairs: Seq<(Seq<char>, Seq<char>)>) -> Seq<char> {
    seq!['['] + joined_pairs(pairs) + seq![']']
}

/// The JSON graph export.
pub open spec fn graph_json(nodes: Seq<Seq<char>>, edges: Seq<(Seq<char>, Seq<char>)>) -> Seq<
    char,
> {
    ("{\"nodes\":")@ + json_string_list(nodes) + (",\"edges\":")@ + json_pair_list(edges) + ("}")@
}

/// The decimal digit character of `d`.
pub open spec fn dec_digit(d: u64) -> char {
    if d == 0 {
        '0'
    } else if d == 1 {
        '1'
    } else if d == 2 {
        '2'
    } else if d == 3 {
        '3'
    } else if d == 4 {
        '4'
    } else if d == 5 {
        '5'
    } else if d == 6 {
        '6'
    } else if d == 7 {
        '7'
    } else if d == 8 {
        '8'
    } else {
        '9'
    }
}

/// The decimal rendering of `x`, most significant digit first.
pub open spec fn dec_string(x: u64) -> Seq<char>
    decreases x,
{
    if x < 10 {
        seq![dec_digit(x)]
    } else {
        dec_string(x / 10).push(dec_digit(x % 10))
    }
}

/// A `[url, depth]` entry of the crawl-state queue.
pub open spec fn json_entry(url: Seq<char>, depth: u64) -> Seq<char> {
    seq!['['] + json_string(url) + seq![','] + dec_string(depth) + seq![']']
}

/// The entries' JSON arrays joined with commas.
pub open spec fn joined_entries(entries: Seq<(Seq<char>, u64)>) -> Seq<char>
    decreases entries.len(),
{
    if entries.len() == 0 {
        Seq::empty()
    } else if entries.len() == 1 {
        json_entry(entries[0].0, entries[0].1)
    } else {
        joined_entries(entries.drop_last()) + seq![','] + json_entry(
            entries.last().0,
            entries.last().1,
        )
    }
}

/// The JSON crawl-state snapshot.
pub open spec fn state_json(entries: Seq<(Seq<char>, u64)>, visited: Seq<Seq<char>>) -> Seq<
    char,
> {
    ("{\"queue\":[")@ + joined_entries(entries) + ("],\"visited\":")@ + json_string_list(visited)
        + ("}")@
}

/// Appends a JSON string literal.
fn append_json_string(out: &mut String, s: &str)
    ensures
        final(out)@ == old(out)@ + json_string(s@),
{
    proof {
        reveal_strlit("\"");
    }
    out.append("\"");
    out.append(s);
    out.append("\"");
    assert(final(out)@ =~= old(out)@ + json_string(s@));
}

/// Appends the items' JSON strings joined with commas.
fn append_joined_strings(out: &mut String, items: &Vec<String>)
    ensures
        final(out)@ == old(out)@ + joined_strings(items.deep_view()),
{
    proof {
        reveal_strlit(",");
        assert(items.deep_view().subrange(0, 0) =~= Seq::<Seq<char>>::empty());
    }
    let mut i: usize = 0;
    while i < items.len()
        invariant
            i <= items@.len(),
            items.deep_view().len() == items@.len(),
            out@ == old(out)@ + joined_strings(items.deep_view().subrange(0, i as int)),
        decreases items@.len() - i,
    {
        proof {
            reveal_strlit(",");
            assert(items.deep_view()[i as int] == items@[i as int]@);
        }
        if i > 0 {
            out.append(",");
        }
        append_json_string(out, items[i].as_str());
        i += 1;
        proof {
            let sub = items.deep_view().subrange(0, i as int);
            assert(sub.drop_last() =~= items.deep_view().subrange(0, i - 1));
            assert(sub.last() == items.deep_view()[i - 1]);
            if i == 1 {
                assert(joined_strings(sub) =~= json_string(items.deep_view()[0]));
            }
            assert(out@ =~= old(out)@ + joined_strings(sub));
        }
    }
    assert(items.deep_view().subrange(0, items@.len() as int) =~= items.deep_view());
}

/// The `(from, to)` views of an edge list.
pub open spec fn pair_views(edges: Seq<(String, String)>) -> Seq<(Seq<char>, Seq<char>)> {
    Seq::new(edges.len(), |i: int| (edges[i].0@, edges[i].1@))
}

/// Appends the pairs' JSON arrays joined with commas.
fn append_joined_pairs(out: &mut String, pairs: &Vec<(String, String)>)
    ensures
        final(out)@ == old(out)@ + joined_pairs(pair_views(pairs@)),
{
    proof {
        reveal_strlit(",");
        reveal_strlit("[");
        reveal_strlit("]");
        assert(pair_views(pairs@).subrange(0, 0) =~= Seq::<(Seq<char>, Seq<char>)>::empty());
    }
    let mut i: usize = 0;
    while i < pairs.len()
        invariant
            i <= pairs@.len(),
            out@ == old(out)@ + joined_pairs(pair_views(pairs@).subrange(0, i as int)),
        decreases pairs@.len() - i,
    {
        proof {
            reveal_strlit(",");
            reveal_strlit("[");
            reveal_strlit("]");
        }
        if i > 0 {
            out.append(",");
        }
        out.append("[");
        append_json_string(out, pairs[i].0.as_str());
        out.append(",");
        append_json_string(out, pairs[i].1.as_str());
        out.append("]");
        i += 1;
        proof {
            let sub = pair_views(pairs@).subrange(0, i as int);
            assert(sub.drop_last() =~= pair_views(pairs@).subrange(0, i - 1));
            assert(sub.last() == (pairs@[i - 1].0@, pairs@[i - 1].1@));
            if i == 1 {
                assert(joined_pairs(sub) =~= json_pair(sub[0].0, sub[0].1));
            }
            assert(out@ =~= old(out)@ + joined_pairs(sub));
        }
    }
    assert(pair_views(pairs@).subrange(0, pairs@.len() as int) =~= pair_views(pairs@));
}

/// Renders the graph export: nodes first, then edges.
pub fn graph_to_json(nodes: &Vec<String>, edges: &Vec<(String, String)>) -> (r: String)
    ensures
        r@ == graph_json(nodes.deep_view(), pair_views(edges@)),
{
    let mut out = String::new();
    out.append("{\"nodes\":");
    proof {
        reveal_strlit("{\"nodes\":");
        reveal_strlit("[");
        reveal_strlit("]");
        reveal_strlit(",\"edges\":");
        reveal_strlit("}");
    }
    out.append("[");
    append_joined_strings(&mut out, nodes);
    out.append("]");
    out.append(",\"edges\":");
    out.append("[");
    append_joined_pairs(&mut out, edges);
    out.append("]");
    out.append("}");
    proof {
        assert(seq!['['] + joined_strings(nodes.deep_view()) + seq![']'] =~= json_string_list(
            nodes.deep_view(),
        ));
        assert(("[")@ =~= seq!['[']);
        assert(("]")@ =~= seq![']']);
        assert(out@ =~= graph_json(nodes.deep_view(), pair_views(edges@)));
    }
    out
}

/// The decimal digit text of `d`.
fn digit_str(d: u64) -> (r: &'static str)
    requires
        d < 10,
    ensures
        r@ == seq![dec_digit(d)],
{
    proof {
        reveal_strlit("0");
        reveal_strlit("1");
        reveal_strlit("2");
        reveal_strlit("3");
        reveal_strlit("4");
        reveal_strlit("5");
        reveal_strlit("6");
        reveal_strlit("7");
        reveal_strlit("8");
        reveal_strlit("9");
    }
    if d == 0 {
        "0"
    } else if d == 1 {
        "1"
    } else if d == 2 {
        "2"
    } else if d == 3 {
        "3"
    } else if d == 4 {
        "4"
    } else if d == 5 {
        "5"
    } else if d == 6 {
        "6"
    } else if d == 7 {
        "7"
    } else if d == 8 {
        "8"
    } else {
        "9"
    }
}

/// Appends the decimal rendering of `x`.
fn append_u64(out: &mut String, x: u64)
    ensures
        final(out)@ == old(out)@ + dec_string(x),
    decreases x,
{
    if x < 10 {
        out.append(digit_str(x));
        assert(final(out)@ =~= old(out)@ + dec_string(x));
    } else {
        append_u64(out, x / 10);
        out.append(digit_str(x % 10));
        assert(final(out)@ =~= old(out)@ + dec_string(x));
    }
}

/// The `(url, depth)` views of a queue, depths as 64-bit values.
pub open spec fn entry_views_u64(q: Seq<(String, usize)>) -> Seq<(Seq<char>, u64)> {
    Seq::new(q.len(), |i: int| (q[i].0@, q[i].1 as u64))
}

/// Appends the queue entries' JSON arrays joined with commas.
fn append_joined_entries(out: &mut String, entries: &Vec<(String, usize)>)
    ensures
        final(out)@ == old(out)@ + joined_entries(entry_views_u64(entries@)),
{
    proof {
        reveal_strlit(",");
        reveal_strlit("[");
        reveal_strlit("]");
        assert(entry_views_u64(entries@).subrange(0, 0) =~= Seq::<(Seq<char>, u64)>::empty());
    }
    let mut i: usize = 0;
    while i < entries.len()
        invariant
            i <= entries@.len(),
            out@ == old(out)@ + joined_entries(entry_views_u64(entries@).subrange(0, i as int)),
        decreases entries@.len() - i,
    {
        proof {
            reveal_strlit(",");
            reveal_strlit("[");
            reveal_strlit("]");
        }
        if i > 0 {
            out.append(",");
        }
        out.append("[");
        append_json_string(out, entries[i].0.as_str());
        out.append(",");
        append_u64(out, entries[i].1 as u64);
        out.append("]");
        i += 1;
        proof {
            let sub = entry_views_u64(entries@).subrange(0, i as int);
            assert(sub.drop_last() =~= entry_views_u64(entries@).subrange(0, i - 1));
            assert(sub.last() == (entries@[i - 1].0@, entries@[i - 1].1 as u64));
            if i == 1 {
                assert(joined_entries(sub) =~= json_entry(sub[0].0, sub[0].1));
            }
            assert(out@ =~= old(out)@ + joined_entries(sub));
        }
    }
    assert(entry_views_u64(entries@).subrange(0, entries@.len() as int) =~= entry_views_u64(
        entries@,
    ));
}

/// Renders the crawl-state snapshot: the queue, then the visited set.
pub fn state_to_json(queue: &Vec<(String, usize)>, visited: &Vec<String>) -> (r: String)
    ensures
        r@ == state_json(entry_views_u64(queue@), visited.deep_view()),
{
    let mut out = String::new();
    proof {
        reveal_strlit("{\"queue\":[");
        reveal_strlit("],\"visited\":");
        reveal_strlit("[");
        reveal_strlit("]");
        reveal_strlit("}");
    }
    out.append("{\"queue\":[");
    append_joined_entries(&mut out, queue);
    out.append("],\"visited\":");
    out.append("[");
    append_joined_strings(&mut out, visited);
    out.append("]");
    out.append("}");
    proof {
        assert(seq!['['] + joined_strings(visited.deep_view()) + seq![']'] =~= json_string_list(
            visited.deep_view(),
        ));
        assert(("[")@ =~= seq!['[']);
        assert(("]")@ =~= seq![']']);
        assert(out@ =~= state_json(entry_views_u64(queue@), visited.deep_view()));
    }
    out
}

/// The text after the last slash of `s`; `s` itself when it has none.
pub open spec fn last_segment(s: Seq<char>) -> Seq<char>
    decreases s.len(),
{
    if s.len() == 0 {
        s
    } else if s.last() == '/' {
        Seq::empty()
    } else {
        last_segment(s.drop_last()).push(s.last())
    }
}

/// One node statement of the DOT rendering.
pub open spec fn dot_node_line(url: Seq<char>) -> Seq<char> {
    ("  \"")@ + url + ("\" [label=\"")@ + last_segment(url) + ("\"];\n")@
}

/// The node statements, one per node.
pub open spec fn dot_node_lines(nodes: Seq<Seq<char>>) -> Seq<char>
    decreases nodes.len(),
{
    if nodes.len() == 0 {
        Seq::empty()
    } else {
        dot_node_lines(nodes.drop_last()) + dot_node_line(nodes.last())
    }
}

/// One edge statement of the DOT rendering.
pub open spec fn dot_edge_line(from: Seq<char>, to: Seq<char>) -> Seq<char> {
    ("  \"")@ + from + ("\" -> \"")@ + to + ("\";\n")@
}

/// The edge statements, one per recorded edge, duplicates included.
pub open spec fn dot_edge_lines(edges: Seq<(Seq<char>, Seq<char>)>) -> Seq<char>
    decreases edges.len(),
{
    if edges.len() == 0 {
        Seq::empty()
    } else {
        dot_edge_lines(edges.drop_last()) + dot_edge_line(edges.last().0, edges.last().1)
    }
}

/// The whole DOT rendering of the directed link graph.
pub open spec fn dot_text(nodes: Seq<Seq<char>>, edges: Seq<(Seq<char>, Seq<char>)>) -> Seq<
    char,
> {
    ("digraph wikipedia {\n  graph [rankdir=LR];\n  node [shape=box, style=rounded];\n  edge [color=gray50];\n")@
        + dot_node_lines(nodes) + dot_edge_lines(edges) + ("}\n")@
}

/// The text of `s` after its last slash.
fn last_segment_exec(s: &str) -> (r: String)
    ensures
        r@ == last_segment(s@),
{
    let n = s.unicode_len();
    let mut cut: usize = 0;
    let mut i: usize = 0;
    while i < n
        invariant
            n == s@.len(),
            i <= n,
            cut <= i,
            last_segment(s@.subrange(0, i as int)) == s@.subrange(cut as int, i as int),
        decreases n - i,
    {
        let c = s.get_char(i);
        let ghost pre = s@.subrange(0, i as int);
        if c == '/' {
            cut = i + 1;
        }
        i += 1;
        proof {
            let sub = s@.subrange(0, i as int);
            assert(sub.drop_last() =~= pre);
            assert(sub.len() == i);
            assert(sub.last() == s@[i - 1]);
            if s@[i - 1] == '/' {
                assert(last_segment(sub) == Seq::<char>::empty());
                assert(cut == i);
                assert(last_segment(sub) =~= s@.subrange(cut as int, i as int));
            } else {
                assert(last_segment(sub) == last_segment(sub.drop_last()).push(sub.last()));
                assert(last_segment(sub.drop_last()) == last_segment(pre));
                assert(last_segment(pre) == s@.subrange(cut as int, i - 1));
                assert(last_segment(sub) =~= s@.subrange(cut as int, i as int));
            }
        }
    }
    assert(s@.subrange(0, n as int) =~= s@);
    let seg = s.substring_char(cut, n);
    seg.to_owned()
}

/// Renders the directed graph in DOT form: a left-to-right layout, one
/// labelled node statement per node and one edge statement per edge.
pub fn graph_to_dot(nodes: &Vec<String>, edges: &Vec<(String, String)>) -> (r: String)
    ensures
        r@ == dot_text(nodes.deep_view(), pair_views(edges@)),
{
    let mut out = String::new();
    proof {
        reveal_strlit(
            "digraph wikipedia {\n  graph [rankdir=LR];\n  node [shape=box, style=rounded];\n  edge [color=gray50];\n",
        );
        assert(nodes.deep_view().subrange(0, 0) =~= Seq::<Seq<char>>::empty());
    }
    out.append(
        "digraph wikipedia {\n  graph [rankdir=LR];\n  node [shape=box, style=rounded];\n  edge [color=gray50];\n",
    );
    let ghost header = out@;
    let mut i: usize = 0;
    while i < nodes.len()
        invariant
            i <= nodes@.len(),
            nodes.deep_view().len() == nodes@.len(),
            out@ == header + dot_node_lines(nodes.deep_view().subrange(0, i as int)),
        decreases nodes@.len() - i,
    {
        proof {
            reveal_strlit("  \"");
            reveal_strlit("\" [label=\"");
            reveal_strlit("\"];\n");
            assert(nodes.deep_view()[i as int] == nodes@[i as int]@);
        }
        out.append("  \"");
        out.append(nodes[i].as_str());
        out.append("\" [label=\"");
        let seg = last_segment_exec(nodes[i].as_str());
        out.append(seg.as_str());
        out.append("\"];\n");
        i += 1;
        proof {
            let sub = nodes.deep_view().subrange(0, i as int);
            assert(sub.drop_last() =~= nodes.deep_view().subrange(0, i - 1));
            assert(sub.last() == nodes.deep_view()[i - 1]);
            assert(out@ =~= header + dot_node_lines(sub));
        }
    }
    proof {
        assert(nodes.deep_view().subrange(0, nodes@.len() as int) =~= nodes.deep_view());
        assert(pair_views(edges@).subrange(0, 0) =~= Seq::<(Seq<char>, Seq<char>)>::empty());
    }
    let ghost mid = out@;
    let mut i: usize = 0;
    while i < edges.len()
        invariant
            i <= edges@.len(),
            out@ == mid + dot_edge_lines(pair_views(edges@).subrange(0, i as int)),
        decreases edges@.len() - i,
    {
        proof {
            reveal_strlit("  \"");
            reveal_strlit("\" -> \"");
            reveal_strlit("\";\n");
        }
        out.append("  \"");
        out.append(edges[i].0.as_str());
        out.append("\" -> \"");
        out.append(edges[i].1.as_str());
        out.append("\";\n");
        i += 1;
        proof {
            let sub = pair_views(edges@).subrange(0, i as int);
            assert(sub.drop_last() =~= pair_views(edges@).subrange(0, i - 1));
            assert(sub.last() == (edges@[i - 1].0@, edges@[i - 1].1@));
            assert(out@ =~= mid + dot_edge_lines(sub));
        }
    }
    proof {
        reveal_strlit("}\n");
        assert(pair_views(edges@).subrange(0, edges@.len() as int) =~= pair_views(edges@));
    }
    out.append("}\n");
    assert(out@ =~= dot_text(nodes.deep_view(), pair_views(edges@)));
    out
}

/// Matches `lit` at `pos`, returning the position after it; fails
/// exactly when the text there is not `lit`.
fn expect_lit(s: &str, pos: usize, lit: &str) -> (r: Option<usize>)
    requires
        pos <= s@.len(),
    ensures
        match r {
            Some(end) => {
                &&& end == pos + lit@.len()
                &&& end <= s@.len()
                &&& s@.subrange(pos as int, end as int) == lit@
            },
            None => !(pos + lit@.len() <= s@.len() && s@.subrange(
                pos as int,
                pos + lit@.len() as int,
            ) == lit@),
        },
{
    let n = s.unicode_len();
    let m = lit.unicode_len();
    if m > n - pos {
        return None;
    }
    let mut k: usize = 0;
    while k < m
        invariant
            n == s@.len(),
            m == lit@.len(),
            pos + m <= n,
            k <= m,
            forall|j: int| 0 <= j < k ==> s@[pos + j] == lit@[j],
        decreases m - k,
    {
        if s.get_char(pos + k) != lit.get_char(k) {
            proof {
                let whole = s@.subrange(pos as int, pos + lit@.len() as int);
                assert(whole[k as int] == s@[pos + k]);
            }
            return None;
        }
        k += 1;
    }
    assert(s@.subrange(pos as int, (pos + m) as int) =~= lit@);
    Some(pos + m)
}

/// Scans a quoted string at `pos`: succeeds exactly when a quoted
/// quote-free string starts there, and returns that string.
fn raw_string(s: &str, pos: usize) -> (r: Option<(String, usize)>)
    requires
        pos <= s@.len(),
    ensures
        match r {
            Some(v) => {
                &&& pos < v.1 <= s@.len()
                &&& quote_free(v.0@)
                &&& s@.subrange(pos as int, v.1 as int) == json_string(v.0@)
            },
            None => forall|v: Seq<char>|
                quote_free(v) ==> !(pos + v.len() + 2 <= s@.len() && s@.subrange(
                    pos as int,
                    pos + v.len() + 2,
                ) == json_string(v)),
        },
{
    let n = s.unicode_len();
    if pos >= n {
        proof {
            assert forall|v: Seq<char>|
                quote_free(v) implies !(pos + v.len() + 2 <= s@.len() && s@.subrange(
                pos as int,
                pos + v.len() + 2,
            ) == json_string(v)) by {}
        }
        return None;
    }
    if s.get_char(pos) != '"' {
        proof {
            assert forall|v: Seq<char>|
                quote_free(v) implies !(pos + v.len() + 2 <= s@.len() && s@.subrange(
                pos as int,
                pos + v.len() + 2,
            ) == json_string(v)) by {
                if pos + v.len() + 2 <= s@.len() && s@.subrange(pos as int, pos + v.len() + 2)
                    == json_string(v) {
                    assert(s@.subrange(pos as int, pos + v.len() + 2)[0] == s@[pos as int]);
                }
            }
        }
        return None;
    }
    let mut i = pos + 1;
    while i < n && s.get_char(i) != '"'
        invariant
            n == s@.len(),
            pos + 1 <= i <= n,
            forall|j: int| pos + 1 <= j < i ==> s@[j] != '"',
        decreases n - i,
    {
        i += 1;
    }
    if i >= n {
        proof {
            assert forall|v: Seq<char>|
                quote_free(v) implies !(pos + v.len() + 2 <= s@.len() && s@.subrange(
                pos as int,
                pos + v.len() + 2,
            ) == json_string(v)) by {
                if pos + v.len() + 2 <= s@.len() && s@.subrange(pos as int, pos + v.len() + 2)
                    == json_string(v) {
                    let q = pos + 1 + v.len();
                    assert(s@.subrange(pos as int, pos + v.len() + 2)[q - pos] == s@[q]);
                    assert(s@[q] == '"');
                }
            }
        }
        return None;
    }
    let content = s.substring_char(pos + 1, i).to_owned();
    proof {
        assert(quote_free(content@)) by {
            if content@.contains('"') {
                let k = choose|k: int| 0 <= k < content@.len() && content@[k] == '"';
                assert(s@[pos + 1 + k] == '"');
            }
        }
        assert(s@.subrange(pos as int, (i + 1) as int) =~= json_string(content@));
    }
    Some((content, i + 1))
}


/// Splitting a sequence's tail at `b`.
proof fn lemma_split_at(s: Seq<char>, a: int, b: int)
    requires
        0 <= a <= b <= s.len(),
    ensures
        s.skip(a) == s.subrange(a, b) + s.skip(b),
{
    assert(s.skip(a) =~= s.subrange(a, b) + s.skip(b));
}

proof fn lemma_dv_strings(v: &Vec<String>)
    ensures
        v.deep_view().len() == v@.len(),
        forall|i: int| 0 <= i < v@.len() ==> v.deep_view()[i] == v@[i]@,
{
}

/// Where a quoted string has been read at `pos` and some joined list
/// also stands at `pos`, the string is the list's first item, and the
/// list continues right after it.
proof fn lemma_witness_head(s: Seq<char>, pos: int, v: Seq<char>, end: int, its: Seq<Seq<char>>)
    requires
        0 <= pos <= end <= s.len(),
        quote_free(v),
        forall|k: int| 0 <= k < its.len() ==> quote_free(#[trigger] its[k]),
        s.subrange(pos, end) == json_string(v),
        its.len() > 0,
        pos + joined_strings(its).len() + 1 <= s.len(),
        s.subrange(pos, pos + joined_strings(its).len() + 1) == joined_strings(its) + seq![']'],
    ensures
        v == its[0],
        end == pos + v.len() + 2,
        end < s.len(),
        its.len() == 1 ==> s[end] == ']',
        its.len() > 1 ==> {
            let rest = its.drop_first();
            &&& s[end] == ','
            &&& end + 1 + joined_strings(rest).len() + 1 <= s.len()
            &&& s.subrange(end + 1, end + 1 + joined_strings(rest).len() + 1) == joined_strings(
                rest,
            ) + seq![']']
        },
{
    lemma_joined_strings_front(its);
    let whole = joined_strings(its) + seq![']'];
    let limit = pos + whole.len();
    let tail: Seq<char> = if its.len() == 1 {
        seq![']']
    } else {
        seq![','] + joined_strings(its.drop_first()) + seq![']']
    };
    assert(whole =~= json_string(its[0]) + tail);
    lemma_split_at(s, pos, limit);
    lemma_split_at(s, pos, end);
    assert(s.skip(pos) =~= json_string(its[0]) + (tail + s.skip(limit)));
    assert(s.skip(pos) =~= json_string(v) + s.skip(end));
    lemma_quoted_cancel(v, its[0], s.skip(end), tail + s.skip(limit));
    assert(s.subrange(pos, end).len() == json_string(v).len());
    assert(end == pos + v.len() + 2);
    assert(s.skip(end) =~= tail + s.skip(limit));
    assert(s.skip(end).len() >= 1);
    assert(end < s.len());
    assert(s.skip(end)[0] == s[end]);
    assert(s[end] == tail[0]);
    if its.len() > 1 {
        let rest = its.drop_first();
        let r_len = joined_strings(rest).len();
        assert(end + 1 + r_len + 1 == limit);
        assert forall|j: int| 0 <= j < r_len + 1 implies s[end + 1 + j] == (joined_strings(rest)
            + seq![']'])[j] by {
            assert(s.skip(end)[1 + j] == s[end + 1 + j]);
            assert(tail[1 + j] == (joined_strings(rest) + seq![']'])[j]);
        }
        assert(s.subrange(end + 1, end + 1 + r_len + 1) =~= joined_strings(rest) + seq![']']);
    }
}

/// Scans the items of a string list after its opening bracket, up to
/// and including the closing bracket: succeeds exactly when the text
/// there is a joined list of quoted quote-free strings followed by the
/// bracket, and returns those strings.
fn raw_string_items(s: &str, pos: usize) -> (r: Option<(Vec<String>, usize)>)
    requires
        pos <= s@.len(),
    ensures
        match r {
            Some(v) => {
                &&& pos < v.1 <= s@.len()
                &&& (forall|k: int|
                    0 <= k < v.0.deep_view().len() ==> quote_free(#[trigger] v.0.deep_view()[k]))
                &&& s@.subrange(pos as int, v.1 as int) == joined_strings(v.0.deep_view())
                    + seq![']']
            },
            None => forall|its: Seq<Seq<char>>|
                (forall|k: int| 0 <= k < its.len() ==> quote_free(#[trigger] its[k])) ==> !(pos
                    + (#[trigger] joined_strings(its)).len() + 1 <= s@.len() && s@.subrange(
                    pos as int,
                    pos + joined_strings(its).len() + 1,
                ) == joined_strings(its) + seq![']']),
        },
    decreases s@.len() - pos,
{
    let n = s.unicode_len();
    if pos >= n {
        return None;
    }
    if s.get_char(pos) == ']' {
        let items: Vec<String> = Vec::new();
        proof {
            assert(items.deep_view() =~= Seq::<Seq<char>>::empty());
            assert(s@.subrange(pos as int, (pos + 1) as int) =~= joined_strings(
                items.deep_view(),
            ) + seq![']']);
        }
        return Some((items, pos + 1));
    }
    let first = raw_string(s, pos);
    match first {
        None => {
            proof {
                assert forall|its: Seq<Seq<char>>|
                    (forall|k: int| 0 <= k < its.len() ==> quote_free(#[trigger] its[k])) implies !(
                pos + (#[trigger] joined_strings(its)).len() + 1 <= s@.len() && s@.subrange(
                    pos as int,
                    pos + joined_strings(its).len() + 1,
                ) == joined_strings(its) + seq![']']) by {
                    let whole = joined_strings(its) + seq![']'];
                    if pos + whole.len() <= s@.len() && s@.subrange(pos as int, pos + whole.len())
                        == whole {
                        if its.len() == 0 {
                            assert(whole =~= seq![']']);
                            assert(s@.subrange(pos as int, pos + whole.len())[0] == s@[pos as int]);
                            assert(false);
                        } else {
                            lemma_joined_strings_front(its);
                            let v0 = its[0];
                            assert(whole.subrange(0, v0.len() + 2 as int) =~= json_string(v0));
                            assert(s@.subrange(pos as int, pos + v0.len() + 2) =~= whole.subrange(
                                0,
                                v0.len() + 2 as int,
                            ));
                            assert(false);
                        }
                    }
                }
            }
            None
        },
        Some((v, end)) => {
            if end >= n {
                proof {
                    assert forall|its: Seq<Seq<char>>|
                        (forall|k: int| 0 <= k < its.len() ==> quote_free(#[trigger] its[k]))
                        implies !(pos + (#[trigger] joined_strings(its)).len() + 1 <= s@.len()
                        && s@.subrange(pos as int, pos + joined_strings(its).len() + 1)
                        == joined_strings(its) + seq![']']) by {
                        let whole = joined_strings(its) + seq![']'];
                        if pos + whole.len() <= s@.len() && s@.subrange(
                            pos as int,
                            pos + whole.len(),
                        ) == whole {
                            if its.len() == 0 {
                                assert(whole =~= seq![']']);
                                assert(s@.subrange(pos as int, pos + whole.len())[0] == s@[pos as int]);
                                assert(false);
                            } else {
                                lemma_witness_head(s@, pos as int, v@, end as int, its);
                                assert(false);
                            }
                        }
                    }
                }
                return None;
            }
            let c = s.get_char(end);
            if c == ']' {
                let mut items: Vec<String> = Vec::new();
                items.push(v);
                proof {
                    lemma_dv_strings(&items);
                    assert(items.deep_view() =~= seq![items@[0]@]);
                    assert(joined_strings(items.deep_view()) == json_string(
                        items.deep_view()[0],
                    ));
                    assert(s@.subrange(pos as int, (end + 1) as int) =~= joined_strings(
                        items.deep_view(),
                    ) + seq![']']);
                }
                return Some((items, end + 1));
            }
            if c != ',' {
                proof {
                    assert forall|its: Seq<Seq<char>>|
                        (forall|k: int| 0 <= k < its.len() ==> quote_free(#[trigger] its[k]))
                        implies !(pos + (#[trigger] joined_strings(its)).len() + 1 <= s@.len()
                        && s@.subrange(pos as int, pos + joined_strings(its).len() + 1)
                        == joined_strings(its) + seq![']']) by {
                        let whole = joined_strings(its) + seq![']'];
                        if pos + whole.len() <= s@.len() && s@.subrange(
                            pos as int,
                            pos + whole.len(),
                        ) == whole {
                            if its.len() == 0 {
                                assert(whole =~= seq![']']);
                                assert(s@.subrange(pos as int, pos + whole.len())[0] == s@[pos as int]);
                                assert(false);
                            } else {
                                lemma_witness_head(s@, pos as int, v@, end as int, its);
                                assert(false);
                            }
                        }
                    }
                }
                return None;
            }
            let rest = raw_string_items(s, end + 1);
            match rest {
                Some((rest_items, end2)) => {
                    if rest_items.is_empty() {
                        proof {
                            assert(rest_items.deep_view() =~= Seq::<Seq<char>>::empty());
                            assert(joined_strings(rest_items.deep_view()) =~= Seq::<char>::empty());
                            assert(Seq::<char>::empty() + seq![']'] =~= seq![']']);
                            assert(s@.subrange((end + 1) as int, end2 as int)[0] == s@[(end
                                + 1) as int]);
                            assert(s@[(end + 1) as int] == ']');
                            assert forall|its: Seq<Seq<char>>|
                                (forall|k: int|
                                    0 <= k < its.len() ==> quote_free(#[trigger] its[k])) implies !(
                            pos + (#[trigger] joined_strings(its)).len() + 1 <= s@.len()
                                && s@.subrange(pos as int, pos + joined_strings(its).len() + 1)
                                == joined_strings(its) + seq![']']) by {
                                let whole = joined_strings(its) + seq![']'];
                                if pos + whole.len() <= s@.len() && s@.subrange(
                                    pos as int,
                                    pos + whole.len(),
                                ) == whole {
                                    if its.len() == 0 {
                                        assert(whole =~= seq![']']);
                                        assert(s@.subrange(pos as int, pos + whole.len())[0]
                                            == s@[pos as int]);
                                        assert(false);
                                    } else {
                                        lemma_witness_head(s@, pos as int, v@, end as int, its);
                                        assert(its.len() > 1);
                                        let rest_w = its.drop_first();
                                        lemma_joined_strings_front(rest_w);
                                        let v1 = rest_w[0];
                                        assert(s@.subrange(
                                            (end + 1) as int,
                                            end + 1 + joined_strings(rest_w).len() + 1,
                                        )[0] == s@[(end + 1) as int]);
                                        assert((joined_strings(rest_w) + seq![']'])[0]
                                            == json_string(v1)[0]);
                                        assert(false);
                                    }
                                }
                            }
                        }
                        return None;
                    }
                    let ghost pre = rest_items.deep_view();
                    let mut items = rest_items;
                    items.insert(0, v);
                    proof {
                        lemma_dv_strings(&items);
                        let dv = items.deep_view();
                        assert(dv.len() == pre.len() + 1);
                        assert(dv[0] == v@);
                        assert forall|k: int| 1 <= k < dv.len() implies dv[k] == pre[k - 1] by {
                            assert(items@[k] == items@.subrange(1, items@.len() as int)[k - 1]);
                        }
                        assert(dv.drop_first() =~= pre);
                        lemma_joined_strings_front(dv);
                        assert(joined_strings(dv) == json_string(v@) + seq![','] + joined_strings(
                            pre,
                        ));
                        assert(s@.subrange(pos as int, end2 as int) =~= s@.subrange(
                            pos as int,
                            end as int,
                        ) + seq![s@[end as int]] + s@.subrange((end + 1) as int, end2 as int));
                        assert(s@.subrange(pos as int, end2 as int) =~= joined_strings(dv)
                            + seq![']']);
                    }
                    Some((items, end2))
                },
                None => {
                    proof {
                        assert forall|its: Seq<Seq<char>>|
                            (forall|k: int| 0 <= k < its.len() ==> quote_free(#[trigger] its[k]))
                            implies !(pos + (#[trigger] joined_strings(its)).len() + 1 <= s@.len()
                            && s@.subrange(pos as int, pos + joined_strings(its).len() + 1)
                            == joined_strings(its) + seq![']']) by {
                            let whole = joined_strings(its) + seq![']'];
                            if pos + whole.len() <= s@.len() && s@.subrange(
                                pos as int,
                                pos + whole.len(),
                            ) == whole {
                                if its.len() == 0 {
                                    assert(whole =~= seq![']']);
                                    assert(s@.subrange(pos as int, pos + whole.len())[0]
                                        == s@[pos as int]);
                                    assert(false);
                                } else {
                                    lemma_witness_head(s@, pos as int, v@, end as int, its);
                                    assert(its.len() > 1);
                                    assert(false);
                                }
                            }
                        }
                    }
                    None
                },
            }
        },
    }
}

/// The numeric value of a digit character (zero on any other).
pub open spec fn digit_val(c: char) -> u64 {
    if c == '1' {
        1
    } else if c == '2' {
        2
    } else if c == '3' {
        3
    } else if c == '4' {
        4
    } else if c == '5' {
        5
    } else if c == '6' {
        6
    } else if c == '7' {
        7
    } else if c == '8' {
        8
    } else if c == '9' {
        9
    } else {
        0
    }
}

/// The value of a digit string read left to right.
pub open spec fn digits_val(ds: Seq<char>) -> nat
    decreases ds.len(),
{
    if ds.len() == 0 {
        0
    } else {
        digits_val(ds.drop_last()) * 10 + (digit_val(ds.last()) as nat)
    }
}

/// Reading back a decimal rendering gives the value.
proof fn lemma_digits_val_dec(d: u64)
    ensures
        digits_val(dec_string(d)) == d,
    decreases d,
{
    if d < 10 {
        assert(dec_string(d) == seq![dec_digit(d)]);
        assert(dec_string(d).drop_last() =~= Seq::<char>::empty());
        assert(digit_val(dec_digit(d)) == d);
        assert(digits_val(dec_string(d)) == digits_val(dec_string(d).drop_last()) * 10 + (
        digit_val(dec_string(d).last()) as nat));
        assert(digits_val(dec_string(d).drop_last()) == 0);
        assert(dec_string(d).last() == dec_digit(d));
    } else {
        lemma_digits_val_dec(d / 10);
        assert(dec_string(d).drop_last() =~= dec_string(d / 10));
        assert(dec_string(d).last() == dec_digit(d % 10));
        assert(digit_val(dec_digit(d % 10)) == d % 10);
        assert(digits_val(dec_string(d)) == digits_val(dec_string(d / 10)) * 10 + (d % 10) as nat);
    }
}

/// A longer digit prefix never has a smaller value.
proof fn lemma_digits_val_prefix_le(ds: Seq<char>, j: int)
    requires
        0 <= j <= ds.len(),
    ensures
        digits_val(ds.subrange(0, j)) <= digits_val(ds),
    decreases ds.len() - j,
{
    if j < ds.len() {
        lemma_digits_val_prefix_le(ds, j + 1);
        let a = ds.subrange(0, j);
        let b = ds.subrange(0, j + 1);
        assert(b.drop_last() =~= a);
        assert(digits_val(b) == digits_val(a) * 10 + digit_val(b.last()));
    } else {
        assert(ds.subrange(0, j) =~= ds);
    }
}

/// The digit value of `c`, or ten when `c` is no digit.
fn digit_of(c: char) -> (d: u64)
    ensures
        (d == 10) == !is_digit(c),
        d != 10 ==> d == digit_val(c),
        d <= 10,
{
    if c == '0' {
        0
    } else if c == '1' {
        1
    } else if c == '2' {
        2
    } else if c == '3' {
        3
    } else if c == '4' {
        4
    } else if c == '5' {
        5
    } else if c == '6' {
        6
    } else if c == '7' {
        7
    } else if c == '8' {
        8
    } else if c == '9' {
        9
    } else {
        10
    }
}

/// Scans an unsigned decimal number at `pos`: greedy over digits, with
/// the value read exactly; fails exactly when no 64-bit decimal number
/// followed by a non-digit stands there.
fn raw_number(s: &str, pos: usize) -> (r: Option<(u64, usize)>)
    requires
        pos <= s@.len(),
    ensures
        match r {
            Some(v) => {
                &&& pos < v.1 <= s@.len()
                &&& (forall|j: int| pos <= j < v.1 ==> is_digit(#[trigger] s@[j]))
                &&& v.0 == digits_val(s@.subrange(pos as int, v.1 as int))
                &&& (v.1 == s@.len() || !is_digit(s@[v.1 as int]))
            },
            None => forall|d: u64|
                !(pos + (#[trigger] dec_string(d)).len() <= s@.len() && s@.subrange(
                    pos as int,
                    pos + dec_string(d).len(),
                ) == dec_string(d) && (pos + dec_string(d).len() == s@.len() || !is_digit(
                    s@[pos + dec_string(d).len()],
                ))),
        },
{
    let n = s.unicode_len();
    let mut i = pos;
    let mut acc: u64 = 0;
    while i < n && digit_of(s.get_char(i)) != 10
        invariant
            n == s@.len(),
            pos <= i <= n,
            forall|j: int| pos <= j < i ==> is_digit(#[trigger] s@[j]),
            acc == digits_val(s@.subrange(pos as int, i as int)),
        decreases n - i,
    {
        let c = s.get_char(i);
        let d = digit_of(c);
        assert(d <= 9);
        if acc > (u64::MAX - d) / 10 {
            // the number does not fit in 64 bits; no witness value can
            // reach this, since a decimal prefix of a 64-bit value fits
            proof {
                let limit = (u64::MAX - d) as int;
                vstd::arithmetic::div_mod::lemma_fundamental_div_mod(limit, 10);
                assert(acc * 10 >= (limit / 10 + 1) * 10) by (nonlinear_arith)
                    requires
                        acc >= limit / 10 + 1,
                ;
                assert(acc * 10 + d > u64::MAX);
                assert forall|dw: u64|
                    !(pos + (#[trigger] dec_string(dw)).len() <= s@.len() && s@.subrange(
                        pos as int,
                        pos + dec_string(dw).len(),
                    ) == dec_string(dw) && (pos + dec_string(dw).len() == s@.len() || !is_digit(
                        s@[pos + dec_string(dw).len()],
                    ))) by {
                    let l = dec_string(dw).len();
                    if pos + l <= s@.len() && s@.subrange(pos as int, pos + l) == dec_string(dw)
                        && (pos + l == s@.len() || !is_digit(s@[pos + l])) {
                        lemma_dec_string_shape(dw);
                        if i == pos + l {
                            assert(is_digit(s@[i as int]));
                            assert(i < n);
                            assert(false);
                        } else if i > pos + l {
                            assert(is_digit(s@[pos + l]));
                            assert(pos + l < n);
                            assert(false);
                        }
                        assert(i < pos + l);
                        assert forall|j: int| 0 <= j < i + 1 - pos implies s@[pos + j]
                            == dec_string(dw)[j] by {
                            assert(s@.subrange(pos as int, pos + l)[j] == s@[pos + j]);
                        }
                        assert(s@.subrange(pos as int, (i + 1) as int) =~= dec_string(dw).subrange(
                            0,
                            i + 1 - pos,
                        ));
                        assert(s@.subrange(pos as int, (i + 1) as int).drop_last() =~= s@.subrange(
                            pos as int,
                            i as int,
                        ));
                        assert(s@.subrange(pos as int, (i + 1) as int).last() == s@[i as int]);
                        assert(digits_val(s@.subrange(pos as int, (i + 1) as int)) == acc * 10 + (
                        digit_val(s@[i as int]) as nat));
                        assert(digit_val(s@[i as int]) == d);
                        lemma_digits_val_prefix_le(dec_string(dw), i + 1 - pos);
                        lemma_digits_val_dec(dw);
                        assert(acc * 10 + d <= dw);
                        assert(false);
                    }
                }
            }
            return None;
        }
        proof {
            let limit = (u64::MAX - d) as int;
            vstd::arithmetic::div_mod::lemma_fundamental_div_mod(limit, 10);
            assert(10 * (limit / 10) <= limit);
            assert(acc * 10 <= 10 * (limit / 10)) by (nonlinear_arith)
                requires
                    acc <= limit / 10,
            ;
            assert(s@.subrange(pos as int, (i + 1) as int).drop_last() =~= s@.subrange(
                pos as int,
                i as int,
            ));
            assert(s@.subrange(pos as int, (i + 1) as int).last() == s@[i as int]);
            assert(digit_val(s@[i as int]) == d);
        }
        acc = acc * 10 + d;
        i += 1;
    }
    if i == pos {
        proof {
            assert forall|dw: u64|
                !(pos + (#[trigger] dec_string(dw)).len() <= s@.len() && s@.subrange(
                    pos as int,
                    pos + dec_string(dw).len(),
                ) == dec_string(dw) && (pos + dec_string(dw).len() == s@.len() || !is_digit(
                    s@[pos + dec_string(dw).len()],
                ))) by {
                let l = dec_string(dw).len();
                if pos + l <= s@.len() && s@.subrange(pos as int, pos + l) == dec_string(dw) {
                    lemma_dec_string_shape(dw);
                    assert(s@.subrange(pos as int, pos + l)[0] == s@[pos as int]);
                    assert(is_digit(s@[pos as int]));
                    assert(pos < n);
                }
            }
        }
        return None;
    }
        Some((acc, i))
}

/// Scans a JSON array of strings at `pos`: succeeds exactly when a
/// string-list rendering of quote-free strings stands there.
fn raw_string_list(s: &str, pos: usize) -> (r: Option<(Vec<String>, usize)>)
    requires
        pos <= s@.len(),
    ensures
        match r {
            Some(v) => {
                &&& pos < v.1 <= s@.len()
                &&& (forall|k: int|
                    0 <= k < v.0.deep_view().len() ==> quote_free(#[trigger] v.0.deep_view()[k]))
                &&& s@.subrange(pos as int, v.1 as int) == json_string_list(v.0.deep_view())
            },
            None => forall|its: Seq<Seq<char>>|
                (forall|k: int| 0 <= k < its.len() ==> quote_free(#[trigger] its[k])) ==> !(pos + (
                #[trigger] json_string_list(its)).len() <= s@.len() && s@.subrange(
                    pos as int,
                    pos + json_string_list(its).len(),
                ) == json_string_list(its)),
        },
{
    let n = s.unicode_len();
    if pos >= n || s.get_char(pos) != '[' {
        proof {
            assert forall|its: Seq<Seq<char>>|
                (forall|k: int| 0 <= k < its.len() ==> quote_free(#[trigger] its[k])) implies !(pos
                + (#[trigger] json_string_list(its)).len() <= s@.len() && s@.subrange(
                pos as int,
                pos + json_string_list(its).len(),
            ) == json_string_list(its)) by {
                let whole = json_string_list(its);
                if pos + whole.len() <= s@.len() && s@.subrange(pos as int, pos + whole.len())
                    == whole {
                    assert(s@.subrange(pos as int, pos + whole.len())[0] == s@[pos as int]);
                    assert(whole[0] == '[');
                    assert(false);
                }
            }
        }
        return None;
    }
    match raw_string_items(s, pos + 1) {
        Some((items, end)) => {
            proof {
                assert(s@.subrange(pos as int, end as int) =~= seq!['['] + (joined_strings(
                    items.deep_view(),
                ) + seq![']']));
                assert(s@.subrange(pos as int, end as int) =~= json_string_list(
                    items.deep_view(),
                ));
            }
            Some((items, end))
        },
        None => {
            proof {
                assert forall|its: Seq<Seq<char>>|
                    (forall|k: int| 0 <= k < its.len() ==> quote_free(#[trigger] its[k])) implies !(
                pos + (#[trigger] json_string_list(its)).len() <= s@.len() && s@.subrange(
                    pos as int,
                    pos + json_string_list(its).len(),
                ) == json_string_list(its)) by {
                    let whole = json_string_list(its);
                    if pos + whole.len() <= s@.len() && s@.subrange(pos as int, pos + whole.len())
                        == whole {
                        let inner = joined_strings(its) + seq![']'];
                        assert(whole =~= seq!['['] + inner);
                        assert forall|j: int| 0 <= j < inner.len() implies s@[pos + 1 + j]
                            == inner[j] by {
                            assert(s@.subrange(pos as int, pos + whole.len())[1 + j] == s@[pos + 1
                                + j]);
                        }
                        assert(s@.subrange(
                            (pos + 1) as int,
                            pos + 1 + joined_strings(its).len() + 1,
                        ) =~= inner);
                        assert(false);
                    }
                }
            }
            None
        },
    }
}

/// A quoted string read at `p` coincides with a quoted string known to
/// stand at `p`.
proof fn lemma_quoted_at(s: Seq<char>, p: int, v: Seq<char>, end: int, a: Seq<char>)
    requires
        0 <= p <= end <= s.len(),
        quote_free(v),
        quote_free(a),
        s.subrange(p, end) == json_string(v),
        p + a.len() + 2 <= s.len(),
        s.subrange(p, p + a.len() + 2) == json_string(a),
    ensures
        v == a,
        end == p + a.len() + 2,
{
    lemma_split_at(s, p, end);
    lemma_split_at(s, p, p + a.len() + 2);
    assert(s.skip(p) =~= json_string(v) + s.skip(end));
    assert(s.skip(p) =~= json_string(a) + s.skip(p + a.len() + 2));
    lemma_quoted_cancel(v, a, s.skip(end), s.skip(p + a.len() + 2));
    assert(s.subrange(p, end).len() == json_string(v).len());
}

/// Where a rendered pair stands at `pos`, its pieces stand at their
/// computed offsets.
proof fn lemma_pair_decompose(s: Seq<char>, pos: int, a: Seq<char>, b: Seq<char>)
    requires
        0 <= pos,
        pos + json_pair(a, b).len() <= s.len(),
        s.subrange(pos, pos + json_pair(a, b).len()) == json_pair(a, b),
    ensures
        s[pos] == '[',
        pos + 1 + a.len() + 2 <= s.len(),
        s.subrange(pos + 1, pos + 1 + a.len() + 2) == json_string(a),
        s[pos + 1 + a.len() + 2] == ',',
        pos + 1 + a.len() + 2 + 1 + b.len() + 2 <= s.len(),
        s.subrange(pos + a.len() + 4, pos + a.len() + 4 + b.len() + 2) == json_string(b),
        s[pos + a.len() + 6 + b.len()] == ']',
        json_pair(a, b).len() == a.len() + b.len() + 7,
{
    let w = json_pair(a, b);
    assert(w.len() == a.len() + b.len() + 7);
    assert forall|j: int| 0 <= j < w.len() implies s[pos + j] == w[j] by {
        assert(s.subrange(pos, pos + w.len())[j] == s[pos + j]);
    }
    assert(w[0] == '[');
    assert forall|j: int| 0 <= j < a.len() + 2 implies s[pos + 1 + j] == json_string(a)[j] by {
        assert(w[1 + j] == json_string(a)[j]);
    }
    assert(s.subrange(pos + 1, pos + 1 + a.len() + 2) =~= json_string(a));
    assert(w[1 + a.len() + 2 as int] == ',');
    assert forall|j: int| 0 <= j < b.len() + 2 implies s[pos + a.len() + 4 + j] == json_string(
        b,
    )[j] by {
        assert(w[a.len() + 4 + j] == json_string(b)[j]);
    }
    assert(s.subrange(pos + a.len() + 4, pos + a.len() + 4 + b.len() + 2) =~= json_string(b));
    assert(w[a.len() + 6 + b.len() as int] == ']');
}

/// Scans a `["from","to"]` pair at `pos`: succeeds exactly when a
/// rendered pair of quote-free strings stands there.
fn raw_pair(s: &str, pos: usize) -> (r: Option<((String, String), usize)>)
    requires
        pos <= s@.len(),
    ensures
        match r {
            Some(v) => {
                &&& pos < v.1 <= s@.len()
                &&& quote_free(v.0.0@)
                &&& quote_free(v.0.1@)
                &&& s@.subrange(pos as int, v.1 as int) == json_pair(v.0.0@, v.0.1@)
            },
            None => forall|a: Seq<char>, b: Seq<char>|
                quote_free(a) && quote_free(b) ==> !(pos + (#[trigger] json_pair(a, b)).len()
                    <= s@.len() && s@.subrange(pos as int, pos + json_pair(a, b).len())
                    == json_pair(a, b)),
        },
{
    let n = s.unicode_len();
    if pos >= n || s.get_char(pos) != '[' {
        proof {
            assert forall|a: Seq<char>, b: Seq<char>|
                quote_free(a) && quote_free(b) implies !(pos + (#[trigger] json_pair(a, b)).len()
                <= s@.len() && s@.subrange(pos as int, pos + json_pair(a, b).len()) == json_pair(
                a,
                b,
            )) by {
                if pos + json_pair(a, b).len() <= s@.len() && s@.subrange(
                    pos as int,
                    pos + json_pair(a, b).len(),
                ) == json_pair(a, b) {
                    lemma_pair_decompose(s@, pos as int, a, b);
                    assert(false);
                }
            }
        }
        return None;
    }
    let first = raw_string(s, pos + 1);
    if first.is_none() {
        proof {
            assert forall|a: Seq<char>, b: Seq<char>|
                quote_free(a) && quote_free(b) implies !(pos + (#[trigger] json_pair(a, b)).len()
                <= s@.len() && s@.subrange(pos as int, pos + json_pair(a, b).len()) == json_pair(
                a,
                b,
            )) by {
                if pos + json_pair(a, b).len() <= s@.len() && s@.subrange(
                    pos as int,
                    pos + json_pair(a, b).len(),
                ) == json_pair(a, b) {
                    lemma_pair_decompose(s@, pos as int, a, b);
                    assert(false);
                }
            }
        }
        return None;
    }
    let (va, c1) = first.unwrap();
    if c1 >= n || s.get_char(c1) != ',' {
        proof {
            assert forall|a: Seq<char>, b: Seq<char>|
                quote_free(a) && quote_free(b) implies !(pos + (#[trigger] json_pair(a, b)).len()
                <= s@.len() && s@.subrange(pos as int, pos + json_pair(a, b).len()) == json_pair(
                a,
                b,
            )) by {
                if pos + json_pair(a, b).len() <= s@.len() && s@.subrange(
                    pos as int,
                    pos + json_pair(a, b).len(),
                ) == json_pair(a, b) {
                    lemma_pair_decompose(s@, pos as int, a, b);
                    lemma_quoted_at(s@, (pos + 1) as int, va@, c1 as int, a);
                    assert(false);
                }
            }
        }
        return None;
    }
    let second = raw_string(s, c1 + 1);
    if second.is_none() {
        proof {
            assert forall|a: Seq<char>, b: Seq<char>|
                quote_free(a) && quote_free(b) implies !(pos + (#[trigger] json_pair(a, b)).len()
                <= s@.len() && s@.subrange(pos as int, pos + json_pair(a, b).len()) == json_pair(
                a,
                b,
            )) by {
                if pos + json_pair(a, b).len() <= s@.len() && s@.subrange(
                    pos as int,
                    pos + json_pair(a, b).len(),
                ) == json_pair(a, b) {
                    lemma_pair_decompose(s@, pos as int, a, b);
                    lemma_quoted_at(s@, (pos + 1) as int, va@, c1 as int, a);
                    assert(false);
                }
            }
        }
        return None;
    }
    let (vb, c2) = second.unwrap();
    if c2 >= n || s.get_char(c2) != ']' {
        proof {
            assert forall|a: Seq<char>, b: Seq<char>|
                quote_free(a) && quote_free(b) implies !(pos + (#[trigger] json_pair(a, b)).len()
                <= s@.len() && s@.subrange(pos as int, pos + json_pair(a, b).len()) == json_pair(
                a,
                b,
            )) by {
                if pos + json_pair(a, b).len() <= s@.len() && s@.subrange(
                    pos as int,
                    pos + json_pair(a, b).len(),
                ) == json_pair(a, b) {
                    lemma_pair_decompose(s@, pos as int, a, b);
                    lemma_quoted_at(s@, (pos + 1) as int, va@, c1 as int, a);
                    lemma_quoted_at(s@, (c1 + 1) as int, vb@, c2 as int, b);
                    assert(false);
                }
            }
        }
        return None;
    }
    proof {
        assert(s@.subrange(pos as int, (c2 + 1) as int) =~= json_pair(va@, vb@));
    }
    Some(((va, vb), c2 + 1))
}


/// Where a rendered pair has been read at `pos` and some joined pair
/// list also stands at `pos`, the pair is the list's first entry, and
/// the list continues right after it.
proof fn lemma_witness_pair_head(
    s: Seq<char>,
    pos: int,
    va: Seq<char>,
    vb: Seq<char>,
    end: int,
    its: Seq<(Seq<char>, Seq<char>)>,
)
    requires
        0 <= pos <= end <= s.len(),
        quote_free(va),
        quote_free(vb),
        forall|k: int|
            0 <= k < its.len() ==> quote_free((#[trigger] its[k]).0) && quote_free(its[k].1),
        s.subrange(pos, end) == json_pair(va, vb),
        its.len() > 0,
        pos + joined_pairs(its).len() + 1 <= s.len(),
        s.subrange(pos, pos + joined_pairs(its).len() + 1) == joined_pairs(its) + seq![']'],
    ensures
        va == its[0].0,
        vb == its[0].1,
        end == pos + json_pair(its[0].0, its[0].1).len(),
        end < s.len(),
        its.len() == 1 ==> s[end] == ']',
        its.len() > 1 ==> {
            let rest = its.drop_first();
            &&& s[end] == ','
            &&& end + 1 + joined_pairs(rest).len() + 1 <= s.len()
            &&& s.subrange(end + 1, end + 1 + joined_pairs(rest).len() + 1) == joined_pairs(rest)
                + seq![']']
        },
{
    lemma_joined_pairs_front(its);
    let whole = joined_pairs(its) + seq![']'];
    let limit = pos + whole.len();
    let tail: Seq<char> = if its.len() == 1 {
        seq![']']
    } else {
        seq![','] + joined_pairs(its.drop_first()) + seq![']']
    };
    assert(whole =~= json_pair(its[0].0, its[0].1) + tail);
    lemma_split_at(s, pos, limit);
    lemma_split_at(s, pos, end);
    assert(s.skip(pos) =~= json_pair(its[0].0, its[0].1) + (tail + s.skip(limit)));
    assert(s.skip(pos) =~= json_pair(va, vb) + s.skip(end));
    lemma_pair_cancel(va, vb, its[0].0, its[0].1, s.skip(end), tail + s.skip(limit));
    assert(s.subrange(pos, end).len() == json_pair(va, vb).len());
    assert(s.skip(end) =~= tail + s.skip(limit));
    assert(s.skip(end).len() >= 1);
    assert(end < s.len());
    assert(s.skip(end)[0] == s[end]);
    assert(s[end] == tail[0]);
    if its.len() > 1 {
        let rest = its.drop_first();
        let r_len = joined_pairs(rest).len();
        assert(end + 1 + r_len + 1 == limit);
        assert forall|j: int| 0 <= j < r_len + 1 implies s[end + 1 + j] == (joined_pairs(rest)
            + seq![']'])[j] by {
            assert(s.skip(end)[1 + j] == s[end + 1 + j]);
            assert(tail[1 + j] == (joined_pairs(rest) + seq![']'])[j]);
        }
        assert(s.subrange(end + 1, end + 1 + r_len + 1) =~= joined_pairs(rest) + seq![']']);
    }
}

/// The `(from, to)` views of a pair vector.
proof fn lemma_dv_pairs(v: &Vec<(String, String)>)
    ensures
        pair_views(v@).len() == v@.len(),
        forall|i: int| 0 <= i < v@.len() ==> pair_views(v@)[i] == (v@[i].0@, v@[i].1@),
{
}

/// Scans the entries of a pair list after its opening bracket, up to
/// and including the closing bracket: succeeds exactly when the text
/// there is a joined list of rendered pairs followed by the bracket.
fn raw_pair_items(s: &str, pos: usize) -> (r: Option<(Vec<(String, String)>, usize)>)
    requires
        pos <= s@.len(),
    ensures
        match r {
            Some(v) => {
                &&& pos < v.1 <= s@.len()
                &&& (forall|k: int|
                    0 <= k < pair_views(v.0@).len() ==> quote_free(
                        (#[trigger] pair_views(v.0@)[k]).0,
                    ) && quote_free(pair_views(v.0@)[k].1))
                &&& s@.subrange(pos as int, v.1 as int) == joined_pairs(pair_views(v.0@))
                    + seq![']']
            },
            None => forall|its: Seq<(Seq<char>, Seq<char>)>|
                (forall|k: int|
                    0 <= k < its.len() ==> quote_free((#[trigger] its[k]).0) && quote_free(
                        its[k].1,
                    )) ==> !(pos + (#[trigger] joined_pairs(its)).len() + 1 <= s@.len()
                    && s@.subrange(pos as int, pos + joined_pairs(its).len() + 1) == joined_pairs(
                    its,
                ) + seq![']']),
        },
    decreases s@.len() - pos,
{
    let n = s.unicode_len();
    if pos >= n {
        return None;
    }
    if s.get_char(pos) == ']' {
        let items: Vec<(String, String)> = Vec::new();
        proof {
            assert(pair_views(items@) =~= Seq::<(Seq<char>, Seq<char>)>::empty());
            assert(s@.subrange(pos as int, (pos + 1) as int) =~= joined_pairs(pair_views(items@))
                + seq![']']);
        }
        return Some((items, pos + 1));
    }
    let first = raw_pair(s, pos);
    match first {
        None => {
            proof {
                assert forall|its: Seq<(Seq<char>, Seq<char>)>|
                    (forall|k: int|
                        0 <= k < its.len() ==> quote_free((#[trigger] its[k]).0) && quote_free(
                            its[k].1,
                        )) implies !(pos + (#[trigger] joined_pairs(its)).len() + 1 <= s@.len()
                    && s@.subrange(pos as int, pos + joined_pairs(its).len() + 1) == joined_pairs(
                    its,
                ) + seq![']']) by {
                    let whole = joined_pairs(its) + seq![']'];
                    if pos + whole.len() <= s@.len() && s@.subrange(pos as int, pos + whole.len())
                        == whole {
                        if its.len() == 0 {
                            assert(whole =~= seq![']']);
                            assert(s@.subrange(pos as int, pos + whole.len())[0] == s@[pos as int]);
                            assert(false);
                        } else {
                            lemma_joined_pairs_front(its);
                            let p0 = json_pair(its[0].0, its[0].1);
                            assert(whole.subrange(0, p0.len() as int) =~= p0);
                            assert(s@.subrange(pos as int, pos + p0.len()) =~= whole.subrange(
                                0,
                                p0.len() as int,
                            ));
                            assert(false);
                        }
                    }
                }
            }
            None
        },
        Some(((va, vb), end)) => {
            if end >= n {
                proof {
                    assert forall|its: Seq<(Seq<char>, Seq<char>)>|
                        (forall|k: int|
                            0 <= k < its.len() ==> quote_free((#[trigger] its[k]).0) && quote_free(
                                its[k].1,
                            )) implies !(pos + (#[trigger] joined_pairs(its)).len() + 1 <= s@.len()
                        && s@.subrange(pos as int, pos + joined_pairs(its).len() + 1)
                        == joined_pairs(its) + seq![']']) by {
                        let whole = joined_pairs(its) + seq![']'];
                        if pos + whole.len() <= s@.len() && s@.subrange(
                            pos as int,
                            pos + whole.len(),
                        ) == whole {
                            if its.len() == 0 {
                                assert(whole =~= seq![']']);
                                assert(s@.subrange(pos as int, pos + whole.len())[0]
                                    == s@[pos as int]);
                                assert(false);
                            } else {
                                lemma_witness_pair_head(s@, pos as int, va@, vb@, end as int, its);
                                assert(false);
                            }
                        }
                    }
                }
                return None;
            }
            let c = s.get_char(end);
            if c == ']' {
                let mut items: Vec<(String, String)> = Vec::new();
                items.push((va, vb));
                proof {
                    lemma_dv_pairs(&items);
                    assert(pair_views(items@) =~= seq![(items@[0].0@, items@[0].1@)]);
                    assert(joined_pairs(pair_views(items@)) == json_pair(
                        pair_views(items@)[0].0,
                        pair_views(items@)[0].1,
                    ));
                    assert(s@.subrange(pos as int, (end + 1) as int) =~= joined_pairs(
                        pair_views(items@),
                    ) + seq![']']);
                }
                return Some((items, end + 1));
            }
            if c != ',' {
                proof {
                    assert forall|its: Seq<(Seq<char>, Seq<char>)>|
                        (forall|k: int|
                            0 <= k < its.len() ==> quote_free((#[trigger] its[k]).0) && quote_free(
                                its[k].1,
                            )) implies !(pos + (#[trigger] joined_pairs(its)).len() + 1 <= s@.len()
                        && s@.subrange(pos as int, pos + joined_pairs(its).len() + 1)
                        == joined_pairs(its) + seq![']']) by {
                        let whole = joined_pairs(its) + seq![']'];
                        if pos + whole.len() <= s@.len() && s@.subrange(
                            pos as int,
                            pos + whole.len(),
                        ) == whole {
                            if its.len() == 0 {
                                assert(whole =~= seq![']']);
                                assert(s@.subrange(pos as int, pos + whole.len())[0]
                                    == s@[pos as int]);
                                assert(false);
                            } else {
                                lemma_witness_pair_head(s@, pos as int, va@, vb@, end as int, its);
                                assert(false);
                            }
                        }
                    }
                }
                return None;
            }
            let rest = raw_pair_items(s, end + 1);
            match rest {
                Some((rest_items, end2)) => {
                    if rest_items.is_empty() {
                        proof {
                            assert(pair_views(rest_items@) =~= Seq::<(Seq<char>, Seq<char>)>::empty());
                            assert(joined_pairs(pair_views(rest_items@)) =~= Seq::<char>::empty());
                            assert(Seq::<char>::empty() + seq![']'] =~= seq![']']);
                            assert(s@.subrange((end + 1) as int, end2 as int)[0] == s@[(end
                                + 1) as int]);
                            assert(s@[(end + 1) as int] == ']');
                            assert forall|its: Seq<(Seq<char>, Seq<char>)>|
                                (forall|k: int|
                                    0 <= k < its.len() ==> quote_free((#[trigger] its[k]).0)
                                        && quote_free(its[k].1)) implies !(pos + (
                            #[trigger] joined_pairs(its)).len() + 1 <= s@.len() && s@.subrange(
                                pos as int,
                                pos + joined_pairs(its).len() + 1,
                            ) == joined_pairs(its) + seq![']']) by {
                                let whole = joined_pairs(its) + seq![']'];
                                if pos + whole.len() <= s@.len() && s@.subrange(
                                    pos as int,
                                    pos + whole.len(),
                                ) == whole {
                                    if its.len() == 0 {
                                        assert(whole =~= seq![']']);
                                        assert(s@.subrange(pos as int, pos + whole.len())[0]
                                            == s@[pos as int]);
                                        assert(false);
                                    } else {
                                        lemma_witness_pair_head(
                                            s@,
                                            pos as int,
                                            va@,
                                            vb@,
                                            end as int,
                                            its,
                                        );
                                        assert(its.len() > 1);
                                        let rest_w = its.drop_first();
                                        lemma_joined_pairs_front(rest_w);
                                        let p1 = json_pair(rest_w[0].0, rest_w[0].1);
                                        assert(s@.subrange(
                                            (end + 1) as int,
                                            end + 1 + joined_pairs(rest_w).len() + 1,
                                        )[0] == s@[(end + 1) as int]);
                                        assert((joined_pairs(rest_w) + seq![']'])[0] == p1[0]);
                                        assert(false);
                                    }
                                }
                            }
                        }
                        return None;
                    }
                    let ghost pre = pair_views(rest_items@);
                    let mut items = rest_items;
                    items.insert(0, (va, vb));
                    proof {
                        lemma_dv_pairs(&items);
                        let dv = pair_views(items@);
                        assert(dv.len() == pre.len() + 1);
                        assert(dv[0] == (va@, vb@));
                        assert forall|k: int| 1 <= k < dv.len() implies dv[k] == pre[k - 1] by {
                            assert(items@[k] == items@.subrange(1, items@.len() as int)[k - 1]);
                        }
                        assert(dv.drop_first() =~= pre);
                        lemma_joined_pairs_front(dv);
                        assert(joined_pairs(dv) == json_pair(va@, vb@) + seq![','] + joined_pairs(
                            pre,
                        ));
                        assert(s@.subrange(pos as int, end2 as int) =~= s@.subrange(
                            pos as int,
                            end as int,
                        ) + seq![s@[end as int]] + s@.subrange((end + 1) as int, end2 as int));
                        assert(s@.subrange(pos as int, end2 as int) =~= joined_pairs(dv)
                            + seq![']']);
                    }
                    Some((items, end2))
                },
                None => {
                    proof {
                        assert forall|its: Seq<(Seq<char>, Seq<char>)>|
                            (forall|k: int|
                                0 <= k < its.len() ==> quote_free((#[trigger] its[k]).0)
                                    && quote_free(its[k].1)) implies !(pos + (
                        #[trigger] joined_pairs(its)).len() + 1 <= s@.len() && s@.subrange(
                            pos as int,
                            pos + joined_pairs(its).len() + 1,
                        ) == joined_pairs(its) + seq![']']) by {
                            let whole = joined_pairs(its) + seq![']'];
                            if pos + whole.len() <= s@.len() && s@.subrange(
                                pos as int,
                                pos + whole.len(),
                            ) == whole {
                                if its.len() == 0 {
                                    assert(whole =~= seq![']']);
                                    assert(s@.subrange(pos as int, pos + whole.len())[0]
                                        == s@[pos as int]);
                                    assert(false);
                                } else {
                                    lemma_witness_pair_head(
                                        s@,
                                        pos as int,
                                        va@,
                                        vb@,
                                        end as int,
                                        its,
                                    );
                                    assert(its.len() > 1);
                                    assert(false);
                                }
                            }
                        }
                    }
                    None
                },
            }
        },
    }
}

/// Where a rendered queue entry stands at `pos`, its pieces stand at
/// their computed offsets.
proof fn lemma_entry_decompose(s: Seq<char>, pos: int, u: Seq<char>, d: u64)
    requires
        0 <= pos,
        pos + json_entry(u, d).len() <= s.len(),
        s.subrange(pos, pos + json_entry(u, d).len()) == json_entry(u, d),
    ensures
        s[pos] == '[',
        pos + 1 + u.len() + 2 <= s.len(),
        s.subrange(pos + 1, pos + 1 + u.len() + 2) == json_string(u),
        s[pos + 1 + u.len() + 2] == ',',
        pos + u.len() + 4 + dec_string(d).len() < s.len(),
        s.subrange(pos + u.len() + 4, pos + u.len() + 4 + dec_string(d).len() as int)
            == dec_string(d),
        !is_digit(s[pos + u.len() + 4 + dec_string(d).len() as int]),
        s[pos + u.len() + 4 + dec_string(d).len() as int] == ']',
        json_entry(u, d).len() == u.len() + 5 + dec_string(d).len(),
{
    let w = json_entry(u, d);
    let dl = dec_string(d).len();
    assert(w.len() == u.len() + 5 + dl);
    assert forall|j: int| 0 <= j < w.len() implies s[pos + j] == w[j] by {
        assert(s.subrange(pos, pos + w.len())[j] == s[pos + j]);
    }
    assert(w[0] == '[');
    assert forall|j: int| 0 <= j < u.len() + 2 implies s[pos + 1 + j] == json_string(u)[j] by {
        assert(w[1 + j] == json_string(u)[j]);
    }
    assert(s.subrange(pos + 1, pos + 1 + u.len() + 2) =~= json_string(u));
    assert(w[1 + u.len() + 2 as int] == ',');
    assert forall|j: int| 0 <= j < dl implies s[pos + u.len() + 4 + j] == dec_string(d)[j] by {
        assert(w[u.len() + 4 + j] == dec_string(d)[j]);
    }
    assert(s.subrange(pos + u.len() + 4, pos + u.len() + 4 + dl as int) =~= dec_string(d));
    assert(w[u.len() + 4 + dl as int] == ']');
}

/// Whether a rendered entry for `(u, d)` stands at `pos` of `s`.
pub open spec fn entry_at(s: Seq<char>, pos: int, u: Seq<char>, d: u64) -> bool {
    &&& pos + json_entry(u, d).len() <= s.len()
    &&& s.subrange(pos, pos + json_entry(u, d).len()) == json_entry(u, d)
}

/// Scans a `["url",depth]` queue entry at `pos`.  It fails exactly when
/// no rendered entry with a quote-free URL and a depth the platform can
/// hold stands there, and on a rendered entry it reads the exact URL
/// and depth.
fn raw_entry(s: &str, pos: usize) -> (r: Option<((String, usize), usize)>)
    requires
        pos <= s@.len(),
    ensures
        match r {
            Some(v) => {
                &&& pos < v.1 <= s@.len()
                &&& quote_free(v.0.0@)
                &&& (forall|u: Seq<char>, d: u64|
                    quote_free(u) && #[trigger] entry_at(s@, pos as int, u, d) ==> v.0.0@ == u
                        && v.0.1 as u64 == d && v.1 == pos + json_entry(u, d).len())
            },
            None => forall|u: Seq<char>, d: u64|
                quote_free(u) && d <= usize::MAX as u64 ==> !entry_at(s@, pos as int, u, d),
        },
{
    let n = s.unicode_len();
    if pos >= n || s.get_char(pos) != '[' {
        proof {
            assert forall|u: Seq<char>, d: u64|
                quote_free(u) && d <= usize::MAX as u64 implies !entry_at(s@, pos as int, u, d) by {
                if entry_at(s@, pos as int, u, d) {
                    lemma_entry_decompose(s@, pos as int, u, d);
                    assert(false);
                }
            }
        }
        return None;
    }
    let first = raw_string(s, pos + 1);
    if first.is_none() {
        proof {
            assert forall|u: Seq<char>, d: u64|
                quote_free(u) && d <= usize::MAX as u64 implies !entry_at(s@, pos as int, u, d) by {
                if entry_at(s@, pos as int, u, d) {
                    lemma_entry_decompose(s@, pos as int, u, d);
                    assert(false);
                }
            }
        }
        return None;
    }
    let (vu, c1) = first.unwrap();
    if c1 >= n || s.get_char(c1) != ',' {
        proof {
            assert forall|u: Seq<char>, d: u64|
                quote_free(u) && d <= usize::MAX as u64 implies !entry_at(s@, pos as int, u, d) by {
                if entry_at(s@, pos as int, u, d) {
                    lemma_entry_decompose(s@, pos as int, u, d);
                    lemma_quoted_at(s@, (pos + 1) as int, vu@, c1 as int, u);
                    assert(false);
                }
            }
        }
        return None;
    }
    let num = raw_number(s, c1 + 1);
    if num.is_none() {
        proof {
            assert forall|u: Seq<char>, d: u64|
                quote_free(u) && d <= usize::MAX as u64 implies !entry_at(s@, pos as int, u, d) by {
                if entry_at(s@, pos as int, u, d) {
                    lemma_entry_decompose(s@, pos as int, u, d);
                    lemma_quoted_at(s@, (pos + 1) as int, vu@, c1 as int, u);
                    assert(false);
                }
            }
        }
        return None;
    }
    let (dv, c2) = num.unwrap();
    proof {
        // under any witness entry here, the scanned digits are exactly
        // the depth's rendering
        assert forall|u: Seq<char>, d: u64|
            quote_free(u) && #[trigger] entry_at(s@, pos as int, u, d) implies vu@ == u && dv == d
            && c2 == c1 + 1 + dec_string(d).len() by {
            lemma_entry_decompose(s@, pos as int, u, d);
            lemma_quoted_at(s@, (pos + 1) as int, vu@, c1 as int, u);
            let dstart = c1 + 1;
            let dl = dec_string(d).len();
            assert(dstart == pos + u.len() + 4);
            if c2 < dstart + dl {
                assert(s@.subrange(dstart as int, dstart + dl as int)[c2 - dstart]
                    == s@[c2 as int]);
                lemma_dec_string_shape(d);
                assert(is_digit(s@[c2 as int]));
                assert(c2 < s@.len());
                assert(false);
            }
            if c2 > dstart + dl {
                assert(is_digit(s@[dstart + dl as int]));
                assert(!is_digit(s@[dstart + dl as int]));
                assert(false);
            }
            assert(s@.subrange(dstart as int, c2 as int) =~= dec_string(d));
            lemma_digits_val_dec(d);
        }
    }
    if dv > usize::MAX as u64 {
        proof {
            assert forall|u: Seq<char>, d: u64|
                quote_free(u) && d <= usize::MAX as u64 implies !entry_at(s@, pos as int, u, d) by {
                if entry_at(s@, pos as int, u, d) {
                    assert(dv == d);
                    assert(false);
                }
            }
        }
        return None;
    }
    if c2 >= n || s.get_char(c2) != ']' {
        proof {
            assert forall|u: Seq<char>, d: u64|
                quote_free(u) && d <= usize::MAX as u64 implies !entry_at(s@, pos as int, u, d) by {
                if entry_at(s@, pos as int, u, d) {
                    lemma_entry_decompose(s@, pos as int, u, d);
                    assert(vu@ == u && dv == d && c2 == c1 + 1 + dec_string(d).len());
                    lemma_quoted_at(s@, (pos + 1) as int, vu@, c1 as int, u);
                    assert(s@[c2 as int] == ']');
                    assert(c2 < s@.len());
                    assert(false);
                }
            }
        }
        return None;
    }
    proof {
        assert forall|u: Seq<char>, d: u64|
            quote_free(u) && #[trigger] entry_at(s@, pos as int, u, d) implies vu@ == u && (
        dv as usize) as u64 == d && c2 + 1 == pos + json_entry(u, d).len() by {
            lemma_entry_decompose(s@, pos as int, u, d);
            lemma_quoted_at(s@, (pos + 1) as int, vu@, c1 as int, u);
        }
    }
    Some(((vu, dv as usize), c2 + 1))
}

/// Whether the joined entries `its` followed by a closing bracket
/// stand at `pos` of `s`.
pub open spec fn entries_at(s: Seq<char>, pos: int, its: Seq<(Seq<char>, u64)>) -> bool {
    &&& pos + joined_entries(its).len() + 1 <= s.len()
    &&& s.subrange(pos, pos + joined_entries(its).len() + 1) == joined_entries(its) + seq![']']
}

/// Where a nonempty joined entry list stands at `pos`, its first entry
/// stands at `pos` and the rest of the list right after it.
proof fn lemma_entries_layout(s: Seq<char>, pos: int, its: Seq<(Seq<char>, u64)>)
    requires
        0 <= pos,
        its.len() > 0,
        entries_at(s, pos, its),
    ensures
        entry_at(s, pos, its[0].0, its[0].1),
        ({
            let e_end = pos + json_entry(its[0].0, its[0].1).len();
            &&& e_end < s.len()
            &&& (its.len() == 1 ==> s[e_end] == ']' && e_end == pos + joined_entries(its).len())
            &&& (its.len() > 1 ==> s[e_end] == ',' && entries_at(s, e_end + 1, its.drop_first()))
        }),
{
    lemma_joined_entries_front(its);
    let e0 = json_entry(its[0].0, its[0].1);
    let whole = joined_entries(its) + seq![']'];
    let tail: Seq<char> = if its.len() == 1 {
        seq![']']
    } else {
        seq![','] + joined_entries(its.drop_first()) + seq![']']
    };
    assert(whole =~= e0 + tail);
    assert forall|j: int| 0 <= j < whole.len() implies s[pos + j] == whole[j] by {
        assert(s.subrange(pos, pos + whole.len())[j] == s[pos + j]);
    }
    assert(s.subrange(pos, pos + e0.len() as int) =~= e0);
    let e_end = pos + e0.len() as int;
    assert(s[e_end] == whole[e0.len() as int]);
    assert(whole[e0.len() as int] == tail[0]);
    if its.len() > 1 {
        let rest = its.drop_first();
        let r_len = joined_entries(rest).len();
        assert(e_end + 1 + r_len + 1 == pos + whole.len());
        assert forall|j: int| 0 <= j < r_len + 1 implies s[e_end + 1 + j] == (joined_entries(rest)
            + seq![']'])[j] by {
            assert(whole[e0.len() + 1 + j] == tail[1 + j]);
            assert(tail[1 + j] == (joined_entries(rest) + seq![']'])[j]);
        }
        assert(s.subrange(e_end + 1, e_end + 1 + r_len + 1) =~= joined_entries(rest) + seq![']']);
    }
}

/// Scans the queue entries of a crawl-state snapshot, starting after
/// the opening bracket, up to and including the closing bracket.  It
/// fails exactly when no such entry list stands there, and on a
/// rendered list it reads the exact entries.
fn raw_entry_items(s: &str, pos: usize) -> (r: Option<(Vec<(String, usize)>, usize)>)
    requires
        pos <= s@.len(),
    ensures
        match r {
            Some(v) => {
                &&& pos < v.1 <= s@.len()
                &&& (forall|k: int|
                    0 <= k < entry_views_u64(v.0@).len() ==> quote_free(
                        (#[trigger] entry_views_u64(v.0@)[k]).0,
                    ))
                &&& (v.0@.len() == 0 ==> s@[pos as int] == ']')
                &&& (forall|its: Seq<(Seq<char>, u64)>|
                    ((forall|k: int| 0 <= k < its.len() ==> quote_free((#[trigger] its[k]).0)) && (
                    #[trigger] entries_at(s@, pos as int, its))) ==> entry_views_u64(v.0@) == its
                        && v.1 == pos + joined_entries(its).len() + 1)
            },
            None => forall|its: Seq<(Seq<char>, u64)>|
                ((forall|k: int| 0 <= k < its.len() ==> quote_free((#[trigger] its[k]).0)) && (
                forall|k: int| 0 <= k < its.len() ==> (#[trigger] its[k]).1 <= usize::MAX as u64))
                    ==> !entries_at(s@, pos as int, its),
        },
    decreases s@.len() - pos,
{
    let n = s.unicode_len();
    if pos >= n {
        return None;
    }
    if s.get_char(pos) == ']' {
        let items: Vec<(String, usize)> = Vec::new();
        proof {
            assert(entry_views_u64(items@) =~= Seq::<(Seq<char>, u64)>::empty());
            assert forall|its: Seq<(Seq<char>, u64)>|
                ((forall|k: int| 0 <= k < its.len() ==> quote_free((#[trigger] its[k]).0)) && (
            #[trigger] entries_at(s@, pos as int, its))) implies entry_views_u64(items@) == its
                && pos + 1 == pos + joined_entries(its).len() + 1 by {
                if its.len() > 0 {
                    lemma_entries_layout(s@, pos as int, its);
                    lemma_entry_decompose(s@, pos as int, its[0].0, its[0].1);
                    assert(false);
                } else {
                    assert(joined_entries(its) =~= Seq::<char>::empty());
                    assert(entry_views_u64(items@) =~= its);
                }
            }
        }
        return Some((items, pos + 1));
    }
    let first = raw_entry(s, pos);
    match first {
        None => {
            proof {
                assert forall|its: Seq<(Seq<char>, u64)>|
                    ((forall|k: int| 0 <= k < its.len() ==> quote_free((#[trigger] its[k]).0)) && (
                forall|k: int| 0 <= k < its.len() ==> (#[trigger] its[k]).1 <= usize::MAX as u64))
                    implies !entries_at(s@, pos as int, its) by {
                    if entries_at(s@, pos as int, its) {
                        if its.len() == 0 {
                            assert(joined_entries(its) =~= Seq::<char>::empty());
                            assert((joined_entries(its) + seq![']'])[0] == ']');
                            assert(s@.subrange(pos as int, pos + 1) =~= seq![']']);
                            assert(s@[pos as int] == ']');
                            assert(false);
                        } else {
                            lemma_entries_layout(s@, pos as int, its);
                            assert(false);
                        }
                    }
                }
            }
            None
        },
        Some(((vu, vd), e_end)) => {
            if e_end >= n {
                proof {
                    assert forall|its: Seq<(Seq<char>, u64)>|
                        ((forall|k: int|
                            0 <= k < its.len() ==> quote_free((#[trigger] its[k]).0)) && (
                    forall|k: int|
                        0 <= k < its.len() ==> (#[trigger] its[k]).1 <= usize::MAX as u64)) implies
                        !entries_at(s@, pos as int, its) by {
                        if entries_at(s@, pos as int, its) {
                            if its.len() == 0 {
                                assert(joined_entries(its) =~= Seq::<char>::empty());
                                assert((joined_entries(its) + seq![']'])[0] == ']');
                                assert(s@.subrange(pos as int, pos + 1) =~= seq![']']);
                                assert(false);
                            } else {
                                lemma_entries_layout(s@, pos as int, its);
                                assert(e_end == pos + json_entry(its[0].0, its[0].1).len());
                                assert(false);
                            }
                        }
                    }
                }
                return None;
            }
            let c = s.get_char(e_end);
            if c == ']' {
                let mut items: Vec<(String, usize)> = Vec::new();
                items.push((vu, vd));
                proof {
                    assert(entry_views_u64(items@) =~= seq![(items@[0].0@, items@[0].1 as u64)]);
                    assert forall|its: Seq<(Seq<char>, u64)>|
                        ((forall|k: int|
                            0 <= k < its.len() ==> quote_free((#[trigger] its[k]).0)) && (
                    #[trigger] entries_at(s@, pos as int, its))) implies entry_views_u64(items@)
                        == its && e_end + 1 == pos + joined_entries(its).len() + 1 by {
                        if its.len() == 0 {
                            assert(joined_entries(its) =~= Seq::<char>::empty());
                            assert((joined_entries(its) + seq![']'])[0] == ']');
                            assert(s@.subrange(pos as int, pos + 1) =~= seq![']']);
                            assert(false);
                        } else {
                            lemma_entries_layout(s@, pos as int, its);
                            assert(vu@ == its[0].0 && vd as u64 == its[0].1);
                            assert(e_end == pos + json_entry(its[0].0, its[0].1).len());
                            if its.len() > 1 {
                                assert(s@[e_end as int] == ',');
                                assert(false);
                            }
                            assert(entry_views_u64(items@) =~= its);
                            lemma_joined_entries_front(its);
                        }
                    }
                }
                return Some((items, e_end + 1));
            }
            if c != ',' {
                proof {
                    assert forall|its: Seq<(Seq<char>, u64)>|
                        ((forall|k: int|
                            0 <= k < its.len() ==> quote_free((#[trigger] its[k]).0)) && (
                    forall|k: int|
                        0 <= k < its.len() ==> (#[trigger] its[k]).1 <= usize::MAX as u64)) implies
                        !entries_at(s@, pos as int, its) by {
                        if entries_at(s@, pos as int, its) {
                            if its.len() == 0 {
                                assert(joined_entries(its) =~= Seq::<char>::empty());
                                assert((joined_entries(its) + seq![']'])[0] == ']');
                                assert(s@.subrange(pos as int, pos + 1) =~= seq![']']);
                                assert(false);
                            } else {
                                lemma_entries_layout(s@, pos as int, its);
                                assert(e_end == pos + json_entry(its[0].0, its[0].1).len());
                                assert(false);
                            }
                        }
                    }
                }
                return None;
            }
            let rest = raw_entry_items(s, e_end + 1);
            match rest {
                Some((rest_items, end2)) => {
                    if rest_items.is_empty() {
                        proof {
                            assert(s@[(e_end + 1) as int] == ']');
                            assert forall|its: Seq<(Seq<char>, u64)>|
                                ((forall|k: int|
                                    0 <= k < its.len() ==> quote_free((#[trigger] its[k]).0)) && (
                            forall|k: int|
                                0 <= k < its.len() ==> (#[trigger] its[k]).1 <= usize::MAX as u64))
                                implies !entries_at(s@, pos as int, its) by {
                                if entries_at(s@, pos as int, its) {
                                    if its.len() == 0 {
                                        assert(joined_entries(its) =~= Seq::<char>::empty());
                                        assert((joined_entries(its) + seq![']'])[0] == ']');
                                        assert(s@.subrange(pos as int, pos + 1) =~= seq![']']);
                                        assert(false);
                                    } else {
                                        lemma_entries_layout(s@, pos as int, its);
                                        assert(e_end == pos + json_entry(
                                            its[0].0,
                                            its[0].1,
                                        ).len());
                                        if its.len() == 1 {
                                            assert(s@[e_end as int] == ']');
                                            assert(false);
                                        }
                                        let rest_w = its.drop_first();
                                        lemma_entries_layout(s@, (e_end + 1) as int, rest_w);
                                        lemma_entry_decompose(
                                            s@,
                                            (e_end + 1) as int,
                                            rest_w[0].0,
                                            rest_w[0].1,
                                        );
                                        assert(false);
                                    }
                                }
                            }
                        }
                        return None;
                    }
                    let ghost pre = entry_views_u64(rest_items@);
                    let mut items = rest_items;
                    items.insert(0, (vu, vd));
                    proof {
                        let dv = entry_views_u64(items@);
                        assert(dv.len() == pre.len() + 1);
                        assert(dv[0] == (items@[0].0@, items@[0].1 as u64));
                        assert forall|k: int| 1 <= k < dv.len() implies dv[k] == pre[k - 1] by {
                            assert(items@[k] == items@.subrange(1, items@.len() as int)[k - 1]);
                        }
                        assert forall|its: Seq<(Seq<char>, u64)>|
                            ((forall|k: int|
                                0 <= k < its.len() ==> quote_free((#[trigger] its[k]).0)) && (
                        #[trigger] entries_at(s@, pos as int, its))) implies dv == its && end2
                            == pos + joined_entries(its).len() + 1 by {
                            if its.len() == 0 {
                                assert(joined_entries(its) =~= Seq::<char>::empty());
                                assert((joined_entries(its) + seq![']'])[0] == ']');
                                assert(s@.subrange(pos as int, pos + 1) =~= seq![']']);
                                assert(false);
                            } else {
                                lemma_entries_layout(s@, pos as int, its);
                                assert(vu@ == its[0].0 && vd as u64 == its[0].1);
                                assert(e_end == pos + json_entry(its[0].0, its[0].1).len());
                                if its.len() == 1 {
                                    assert(s@[e_end as int] == ']');
                                    assert(false);
                                }
                                let rest_w = its.drop_first();
                                assert(entries_at(s@, (e_end + 1) as int, rest_w));
                                assert(pre == rest_w && end2 == e_end + 1 + joined_entries(
                                    rest_w,
                                ).len() + 1);
                                assert forall|k: int| 0 <= k < dv.len() implies dv[k]
                                    == its[k] by {
                                    if k > 0 {
                                        assert(dv[k] == pre[k - 1]);
                                        assert(rest_w[k - 1] == its[k]);
                                    }
                                }
                                assert(dv =~= its);
                                lemma_joined_entries_front(its);
                            }
                        }
                    }
                    Some((items, end2))
                },
                None => {
                    proof {
                        assert forall|its: Seq<(Seq<char>, u64)>|
                            ((forall|k: int|
                                0 <= k < its.len() ==> quote_free((#[trigger] its[k]).0)) && (
                        forall|k: int|
                            0 <= k < its.len() ==> (#[trigger] its[k]).1 <= usize::MAX as u64))
                            implies !entries_at(s@, pos as int, its) by {
                            if entries_at(s@, pos as int, its) {
                                if its.len() == 0 {
                                    assert(joined_entries(its) =~= Seq::<char>::empty());
                                    assert((joined_entries(its) + seq![']'])[0] == ']');
                                    assert(s@.subrange(pos as int, pos + 1) =~= seq![']']);
                                    assert(false);
                                } else {
                                    lemma_entries_layout(s@, pos as int, its);
                                    assert(e_end == pos + json_entry(its[0].0, its[0].1).len());
                                    if its.len() == 1 {
                                        assert(s@[e_end as int] == ']');
                                        assert(false);
                                    }
                                    let rest_w = its.drop_first();
                                    assert(forall|k: int|
                                        0 <= k < rest_w.len() ==> (#[trigger] rest_w[k])
                                            == its[k + 1]);
                                    assert(entries_at(s@, (e_end + 1) as int, rest_w));
                                    assert(false);
                                }
                            }
                        }
                    }
                    None
                },
            }
        },
    }
}

/// Equal sequences with the same prefix have equal suffixes.
proof fn lemma_prefix_cancel(x: Seq<char>, r1: Seq<char>, r2: Seq<char>)
    requires
        x + r1 == x + r2,
    ensures
        r1 == r2,
{
    assert((x + r1).len() == (x + r2).len());
    assert((x + r1).len() == x.len() + r1.len());
    assert((x + r2).len() == x.len() + r2.len());
    assert(r1.len() == r2.len());
    assert forall|i: int| 0 <= i < r1.len() implies r1[i] == r2[i] by {
        assert((x + r1)[x.len() + i] == r1[i]);
        assert((x + r2)[x.len() + i] == r2[i]);
    }
    assert(r1 =~= r2);
}

/// A quoted quote-free string determines itself and what follows it.
proof fn lemma_quoted_cancel(a: Seq<char>, b: Seq<char>, r1: Seq<char>, r2: Seq<char>)
    requires
        quote_free(a),
        quote_free(b),
        json_string(a) + r1 == json_string(b) + r2,
    ensures
        a == b,
        r1 == r2,
{
    let s = json_string(a) + r1;
    assert(s.len() == a.len() + 2 + r1.len());
    assert(s.len() == b.len() + 2 + r2.len());
    if a.len() < b.len() {
        assert(s[1 + a.len() as int] == '"');
        assert(s[1 + a.len() as int] == b[a.len() as int]);
        assert(b.contains(b[a.len() as int]));
        assert(false);
    }
    if b.len() < a.len() {
        assert(s[1 + b.len() as int] == a[b.len() as int]);
        assert(a.contains(a[b.len() as int]));
        assert(s[1 + b.len() as int] == '"');
        assert(false);
    }
    assert(a.len() == b.len());
    assert forall|i: int| 0 <= i < a.len() implies a[i] == b[i] by {
        assert(s[1 + i] == a[i]);
        assert(s[1 + i] == b[i]);
    }
    assert(a =~= b);
    lemma_prefix_cancel(json_string(a), r1, r2);
}

/// `c` is a decimal digit.
pub open spec fn is_digit(c: char) -> bool {
    c == '0' || c == '1' || c == '2' || c == '3' || c == '4' || c == '5' || c == '6' || c == '7'
        || c == '8' || c == '9'
}

/// A decimal rendering is nonempty, all digits, and two digits or more
/// for a value of ten or more.
proof fn lemma_dec_string_shape(x: u64)
    ensures
        dec_string(x).len() >= 1,
        x >= 10 ==> dec_string(x).len() >= 2,
        forall|i: int| 0 <= i < dec_string(x).len() ==> is_digit(#[trigger] dec_string(x)[i]),
    decreases x,
{
    if x >= 10 {
        lemma_dec_string_shape(x / 10);
        assert forall|i: int| 0 <= i < dec_string(x).len() implies is_digit(
            #[trigger] dec_string(x)[i],
        ) by {
            if i < dec_string(x / 10).len() {
                assert(dec_string(x)[i] == dec_string(x / 10)[i]);
            } else {
                assert(dec_string(x)[i] == dec_digit(x % 10));
            }
        }
    }
}

/// Equal decimal renderings come from equal values.
proof fn lemma_dec_string_inj(d1: u64, d2: u64)
    requires
        dec_string(d1) == dec_string(d2),
    ensures
        d1 == d2,
    decreases d1,
{
    lemma_dec_string_shape(d1);
    lemma_dec_string_shape(d2);
    if d1 < 10 && d2 < 10 {
        assert(dec_string(d1)[0] == dec_digit(d1));
        assert(dec_string(d2)[0] == dec_digit(d2));
    } else if d1 < 10 || d2 < 10 {
        assert(dec_string(d1).len() == dec_string(d2).len());
        assert(false);
    } else {
        assert(dec_string(d1).last() == dec_digit(d1 % 10));
        assert(dec_string(d2).last() == dec_digit(d2 % 10));
        assert(d1 % 10 == d2 % 10);
        assert(dec_string(d1).drop_last() =~= dec_string(d1 / 10));
        assert(dec_string(d2).drop_last() =~= dec_string(d2 / 10));
        lemma_dec_string_inj(d1 / 10, d2 / 10);
    }
}

/// A decimal rendering followed by a non-digit determines the value and
/// what follows.
proof fn lemma_number_cancel(d1: u64, d2: u64, r1: Seq<char>, r2: Seq<char>)
    requires
        r1.len() >= 1,
        r2.len() >= 1,
        !is_digit(r1[0]),
        !is_digit(r2[0]),
        dec_string(d1) + r1 == dec_string(d2) + r2,
    ensures
        d1 == d2,
        r1 == r2,
{
    lemma_dec_string_shape(d1);
    lemma_dec_string_shape(d2);
    let s = dec_string(d1) + r1;
    let k1 = dec_string(d1).len();
    let k2 = dec_string(d2).len();
    assert(s.len() == k1 + r1.len());
    assert((dec_string(d2) + r2).len() == k2 + r2.len());
    if k1 < k2 {
        assert(s[k1 as int] == r1[0]);
        assert(s[k1 as int] == dec_string(d2)[k1 as int]);
        assert(false);
    }
    if k2 < k1 {
        assert(s[k2 as int] == r2[0]);
        assert(s[k2 as int] == dec_string(d1)[k2 as int]);
        assert(false);
    }
    assert forall|i: int| 0 <= i < k1 implies dec_string(d1)[i] == dec_string(d2)[i] by {
        assert(s[i] == dec_string(d1)[i]);
        assert(s[i] == dec_string(d2)[i]);
    }
    assert(dec_string(d1) =~= dec_string(d2));
    lemma_dec_string_inj(d1, d2);
    lemma_prefix_cancel(dec_string(d1), r1, r2);
}

/// The front form of a joined string list.
proof fn lemma_joined_strings_front(items: Seq<Seq<char>>)
    requires
        items.len() >= 1,
    ensures
        items.len() == 1 ==> joined_strings(items) == json_string(items[0]),
        items.len() > 1 ==> joined_strings(items) == json_string(items[0]) + seq![',']
            + joined_strings(items.drop_first()),
    decreases items.len(),
{
    if items.len() == 1 {
    } else if items.len() == 2 {
        let dl = items.drop_last();
        assert(joined_strings(items) == joined_strings(dl) + seq![','] + json_string(
            items.last(),
        ));
        assert(dl.len() == 1);
        assert(dl[0] == items[0]);
        assert(items.drop_first().len() == 1);
        assert(items.drop_first()[0] == items[1]);
        assert(joined_strings(items.drop_first()) == json_string(items[1]));
        assert(joined_strings(items) =~= json_string(items[0]) + seq![','] + joined_strings(
            items.drop_first(),
        ));
    } else {
        let dl = items.drop_last();
        lemma_joined_strings_front(dl);
        assert(dl.len() >= 2);
        assert(dl[0] == items[0]);
        assert(dl.drop_first() =~= items.drop_first().drop_last());
        assert(items.drop_first().len() >= 2);
        assert(items.drop_first().last() == items.last());
        assert(joined_strings(items.drop_first()) == joined_strings(items.drop_first().drop_last())
            + seq![','] + json_string(items.last()));
        assert(joined_strings(items) == joined_strings(dl) + seq![','] + json_string(items.last()));
        assert(joined_strings(dl) == json_string(items[0]) + seq![','] + joined_strings(
            dl.drop_first(),
        ));
        assert(joined_strings(items) =~= json_string(items[0]) + seq![','] + joined_strings(
            items.drop_first(),
        ));
    }
}

/// A joined string list followed by a closing bracket determines the
/// items and what follows.
proof fn lemma_joined_strings_cancel(
    items1: Seq<Seq<char>>,
    items2: Seq<Seq<char>>,
    t1: Seq<char>,
    t2: Seq<char>,
)
    requires
        forall|i: int| 0 <= i < items1.len() ==> quote_free(#[trigger] items1[i]),
        forall|i: int| 0 <= i < items2.len() ==> quote_free(#[trigger] items2[i]),
        t1.len() >= 1,
        t2.len() >= 1,
        t1[0] == ']',
        t2[0] == ']',
        joined_strings(items1) + t1 == joined_strings(items2) + t2,
    ensures
        items1 == items2,
        t1 == t2,
    decreases items1.len(),
{
    let s = joined_strings(items1) + t1;
    if items1.len() == 0 && items2.len() == 0 {
        assert(joined_strings(items1) =~= Seq::<char>::empty());
        assert(s =~= t1);
        assert(s =~= t2);
        assert(items1 =~= items2);
    } else if items1.len() == 0 {
        lemma_joined_strings_front(items2);
        assert(s[0] == t1[0]);
        assert(s[0] == json_string(items2[0])[0]);
        assert(false);
    } else if items2.len() == 0 {
        lemma_joined_strings_front(items1);
        assert(s[0] == t2[0]);
        assert(s[0] == json_string(items1[0])[0]);
        assert(false);
    } else {
        lemma_joined_strings_front(items1);
        lemma_joined_strings_front(items2);
        let a0 = items1[0];
        let b0 = items2[0];
        let rest1: Seq<char> = if items1.len() == 1 {
            t1
        } else {
            seq![','] + joined_strings(items1.drop_first()) + t1
        };
        let rest2: Seq<char> = if items2.len() == 1 {
            t2
        } else {
            seq![','] + joined_strings(items2.drop_first()) + t2
        };
        assert(json_string(a0) + rest1 =~= s);
        assert(json_string(b0) + rest2 =~= joined_strings(items2) + t2);
        lemma_quoted_cancel(a0, b0, rest1, rest2);
        if items1.len() == 1 && items2.len() == 1 {
            assert(items1 =~= items2);
        } else if items1.len() == 1 {
            assert(rest1[0] == ']');
            assert(rest2[0] == ',');
            assert(false);
        } else if items2.len() == 1 {
            assert(rest1[0] == ',');
            assert(rest2[0] == ']');
            assert(false);
        } else {
            assert(seq![','] + (joined_strings(items1.drop_first()) + t1) =~= rest1);
            assert(seq![','] + (joined_strings(items2.drop_first()) + t2) =~= rest2);
            lemma_prefix_cancel(
                seq![','],
                joined_strings(items1.drop_first()) + t1,
                joined_strings(items2.drop_first()) + t2,
            );
            lemma_joined_strings_cancel(items1.drop_first(), items2.drop_first(), t1, t2);
            assert forall|i: int| 0 <= i < items1.len() implies items1[i] == items2[i] by {
                if i > 0 {
                    assert(items1.drop_first()[i - 1] == items2.drop_first()[i - 1]);
                }
            }
            assert(items1 =~= items2);
        }
    }
}

/// A rendered pair determines its two strings and what follows.
proof fn lemma_pair_cancel(
    a1: Seq<char>,
    b1: Seq<char>,
    a2: Seq<char>,
    b2: Seq<char>,
    r1: Seq<char>,
    r2: Seq<char>,
)
    requires
        quote_free(a1),
        quote_free(b1),
        quote_free(a2),
        quote_free(b2),
        json_pair(a1, b1) + r1 == json_pair(a2, b2) + r2,
    ensures
        a1 == a2,
        b1 == b2,
        r1 == r2,
{
    assert(seq!['['] + (json_string(a1) + (seq![','] + (json_string(b1) + (seq![']'] + r1))))
        =~= json_pair(a1, b1) + r1);
    assert(seq!['['] + (json_string(a2) + (seq![','] + (json_string(b2) + (seq![']'] + r2))))
        =~= json_pair(a2, b2) + r2);
    lemma_prefix_cancel(
        seq!['['],
        json_string(a1) + (seq![','] + (json_string(b1) + (seq![']'] + r1))),
        json_string(a2) + (seq![','] + (json_string(b2) + (seq![']'] + r2))),
    );
    lemma_quoted_cancel(
        a1,
        a2,
        seq![','] + (json_string(b1) + (seq![']'] + r1)),
        seq![','] + (json_string(b2) + (seq![']'] + r2)),
    );
    lemma_prefix_cancel(
        seq![','],
        json_string(b1) + (seq![']'] + r1),
        json_string(b2) + (seq![']'] + r2),
    );
    lemma_quoted_cancel(b1, b2, seq![']'] + r1, seq![']'] + r2);
    lemma_prefix_cancel(seq![']'], r1, r2);
}

/// The front form of a joined pair list.
proof fn lemma_joined_pairs_front(pairs: Seq<(Seq<char>, Seq<char>)>)
    requires
        pairs.len() >= 1,
    ensures
        pairs.len() == 1 ==> joined_pairs(pairs) == json_pair(pairs[0].0, pairs[0].1),
        pairs.len() > 1 ==> joined_pairs(pairs) == json_pair(pairs[0].0, pairs[0].1) + seq![',']
            + joined_pairs(pairs.drop_first()),
    decreases pairs.len(),
{
    if pairs.len() == 1 {
    } else if pairs.len() == 2 {
        let dl = pairs.drop_last();
        assert(dl.len() == 1);
        assert(dl[0] == pairs[0]);
        assert(pairs.drop_first().len() == 1);
        assert(pairs.drop_first()[0] == pairs[1]);
        assert(pairs.last() == pairs[1]);
        assert(joined_pairs(pairs) == joined_pairs(dl) + seq![','] + json_pair(
            pairs.last().0,
            pairs.last().1,
        ));
        assert(joined_pairs(dl) == json_pair(pairs[0].0, pairs[0].1));
        assert(joined_pairs(pairs.drop_first()) == json_pair(pairs[1].0, pairs[1].1));
        assert(joined_pairs(pairs) =~= json_pair(pairs[0].0, pairs[0].1) + seq![','] + joined_pairs(
            pairs.drop_first(),
        ));
    } else {
        let dl = pairs.drop_last();
        lemma_joined_pairs_front(dl);
        assert(dl[0] == pairs[0]);
        assert(dl.drop_first() =~= pairs.drop_first().drop_last());
        assert(pairs.drop_first().last() == pairs.last());
        assert(joined_pairs(pairs.drop_first()) == joined_pairs(pairs.drop_first().drop_last())
            + seq![','] + json_pair(pairs.last().0, pairs.last().1));
        assert(joined_pairs(pairs) =~= json_pair(pairs[0].0, pairs[0].1) + seq![','] + joined_pairs(
            pairs.drop_first(),
        ));
    }
}

/// A joined pair list followed by a closing bracket determines the
/// pairs and what follows.
proof fn lemma_joined_pairs_cancel(
    pairs1: Seq<(Seq<char>, Seq<char>)>,
    pairs2: Seq<(Seq<char>, Seq<char>)>,
    t1: Seq<char>,
    t2: Seq<char>,
)
    requires
        forall|i: int|
            0 <= i < pairs1.len() ==> quote_free((#[trigger] pairs1[i]).0) && quote_free(
                pairs1[i].1,
            ),
        forall|i: int|
            0 <= i < pairs2.len() ==> quote_free((#[trigger] pairs2[i]).0) && quote_free(
                pairs2[i].1,
            ),
        t1.len() >= 1,
        t2.len() >= 1,
        t1[0] == ']',
        t2[0] == ']',
        joined_pairs(pairs1) + t1 == joined_pairs(pairs2) + t2,
    ensures
        pairs1 == pairs2,
        t1 == t2,
    decreases pairs1.len(),
{
    let s = joined_pairs(pairs1) + t1;
    if pairs1.len() == 0 && pairs2.len() == 0 {
        assert(joined_pairs(pairs1) =~= Seq::<char>::empty());
        assert(s =~= t1);
        assert(s =~= t2);
        assert(pairs1 =~= pairs2);
    } else if pairs1.len() == 0 {
        lemma_joined_pairs_front(pairs2);
        assert(s[0] == t1[0]);
        assert(s[0] == json_pair(pairs2[0].0, pairs2[0].1)[0]);
        assert(false);
    } else if pairs2.len() == 0 {
        lemma_joined_pairs_front(pairs1);
        assert(s[0] == t2[0]);
        assert(s[0] == json_pair(pairs1[0].0, pairs1[0].1)[0]);
        assert(false);
    } else {
        lemma_joined_pairs_front(pairs1);
        lemma_joined_pairs_front(pairs2);
        let rest1: Seq<char> = if pairs1.len() == 1 {
            t1
        } else {
            seq![','] + joined_pairs(pairs1.drop_first()) + t1
        };
        let rest2: Seq<char> = if pairs2.len() == 1 {
            t2
        } else {
            seq![','] + joined_pairs(pairs2.drop_first()) + t2
        };
        assert(json_pair(pairs1[0].0, pairs1[0].1) + rest1 =~= s);
        assert(json_pair(pairs2[0].0, pairs2[0].1) + rest2 =~= joined_pairs(pairs2) + t2);
        lemma_pair_cancel(
            pairs1[0].0,
            pairs1[0].1,
            pairs2[0].0,
            pairs2[0].1,
            rest1,
            rest2,
        );
        if pairs1.len() == 1 && pairs2.len() == 1 {
            assert(pairs1[0] == pairs2[0]);
            assert(pairs1 =~= pairs2);
        } else if pairs1.len() == 1 {
            assert(rest1[0] == ']');
            assert(rest2[0] == ',');
            assert(false);
        } else if pairs2.len() == 1 {
            assert(rest1[0] == ',');
            assert(rest2[0] == ']');
            assert(false);
        } else {
            assert(seq![','] + (joined_pairs(pairs1.drop_first()) + t1) =~= rest1);
            assert(seq![','] + (joined_pairs(pairs2.drop_first()) + t2) =~= rest2);
            lemma_prefix_cancel(
                seq![','],
                joined_pairs(pairs1.drop_first()) + t1,
                joined_pairs(pairs2.drop_first()) + t2,
            );
            lemma_joined_pairs_cancel(pairs1.drop_first(), pairs2.drop_first(), t1, t2);
            assert forall|i: int| 0 <= i < pairs1.len() implies pairs1[i] == pairs2[i] by {
                if i > 0 {
                    assert(pairs1.drop_first()[i - 1] == pairs2.drop_first()[i - 1]);
                }
            }
            assert(pairs1 =~= pairs2);
        }
    }
}

/// A rendered queue entry determines its URL, its depth and what
/// follows.
proof fn lemma_entry_cancel(
    u1: Seq<char>,
    d1: u64,
    u2: Seq<char>,
    d2: u64,
    r1: Seq<char>,
    r2: Seq<char>,
)
    requires
        quote_free(u1),
        quote_free(u2),
        json_entry(u1, d1) + r1 == json_entry(u2, d2) + r2,
    ensures
        u1 == u2,
        d1 == d2,
        r1 == r2,
{
    assert(seq!['['] + (json_string(u1) + (seq![','] + (dec_string(d1) + (seq![']'] + r1))))
        =~= json_entry(u1, d1) + r1);
    assert(seq!['['] + (json_string(u2) + (seq![','] + (dec_string(d2) + (seq![']'] + r2))))
        =~= json_entry(u2, d2) + r2);
    lemma_prefix_cancel(
        seq!['['],
        json_string(u1) + (seq![','] + (dec_string(d1) + (seq![']'] + r1))),
        json_string(u2) + (seq![','] + (dec_string(d2) + (seq![']'] + r2))),
    );
    lemma_quoted_cancel(
        u1,
        u2,
        seq![','] + (dec_string(d1) + (seq![']'] + r1)),
        seq![','] + (dec_string(d2) + (seq![']'] + r2)),
    );
    lemma_prefix_cancel(
        seq![','],
        dec_string(d1) + (seq![']'] + r1),
        dec_string(d2) + (seq![']'] + r2),
    );
    assert((seq![']'] + r1)[0] == ']');
    assert((seq![']'] + r2)[0] == ']');
    lemma_number_cancel(d1, d2, seq![']'] + r1, seq![']'] + r2);
    lemma_prefix_cancel(seq![']'], r1, r2);
}

/// The front form of a joined entry list.
proof fn lemma_joined_entries_front(entries: Seq<(Seq<char>, u64)>)
    requires
        entries.len() >= 1,
    ensures
        entries.len() == 1 ==> joined_entries(entries) == json_entry(entries[0].0, entries[0].1),
        entries.len() > 1 ==> joined_entries(entries) == json_entry(entries[0].0, entries[0].1)
            + seq![','] + joined_entries(entries.drop_first()),
    decreases entries.len(),
{
    if entries.len() == 1 {
    } else if entries.len() == 2 {
        let dl = entries.drop_last();
        assert(dl.len() == 1);
        assert(dl[0] == entries[0]);
        assert(entries.drop_first().len() == 1);
        assert(entries.drop_first()[0] == entries[1]);
        assert(entries.last() == entries[1]);
        assert(joined_entries(entries) == joined_entries(dl) + seq![','] + json_entry(
            entries.last().0,
            entries.last().1,
        ));
        assert(joined_entries(dl) == json_entry(entries[0].0, entries[0].1));
        assert(joined_entries(entries.drop_first()) == json_entry(entries[1].0, entries[1].1));
        assert(joined_entries(entries) =~= json_entry(entries[0].0, entries[0].1) + seq![',']
            + joined_entries(entries.drop_first()));
    } else {
        let dl = entries.drop_last();
        lemma_joined_entries_front(dl);
        assert(dl[0] == entries[0]);
        assert(dl.drop_first() =~= entries.drop_first().drop_last());
        assert(entries.drop_first().last() == entries.last());
        assert(joined_entries(entries.drop_first()) == joined_entries(
            entries.drop_first().drop_last(),
        ) + seq![','] + json_entry(entries.last().0, entries.last().1));
        assert(joined_entries(entries) =~= json_entry(entries[0].0, entries[0].1) + seq![',']
            + joined_entries(entries.drop_first()));
    }
}

/// A joined entry list followed by a closing bracket determines the
/// entries and what follows.
proof fn lemma_joined_entries_cancel(
    entries1: Seq<(Seq<char>, u64)>,
    entries2: Seq<(Seq<char>, u64)>,
    t1: Seq<char>,
    t2: Seq<char>,
)
    requires
        forall|i: int| 0 <= i < entries1.len() ==> quote_free((#[trigger] entries1[i]).0),
        forall|i: int| 0 <= i < entries2.len() ==> quote_free((#[trigger] entries2[i]).0),
        t1.len() >= 1,
        t2.len() >= 1,
        t1[0] == ']',
        t2[0] == ']',
        joined_entries(entries1) + t1 == joined_entries(entries2) + t2,
    ensures
        entries1 == entries2,
        t1 == t2,
    decreases entries1.len(),
{
    let s = joined_entries(entries1) + t1;
    if entries1.len() == 0 && entries2.len() == 0 {
        assert(joined_entries(entries1) =~= Seq::<char>::empty());
        assert(s =~= t1);
        assert(s =~= t2);
        assert(entries1 =~= entries2);
    } else if entries1.len() == 0 {
        lemma_joined_entries_front(entries2);
        assert(s[0] == t1[0]);
        assert(s[0] == json_entry(entries2[0].0, entries2[0].1)[0]);
        assert(false);
    } else if entries2.len() == 0 {
        lemma_joined_entries_front(entries1);
        assert(s[0] == t2[0]);
        assert(s[0] == json_entry(entries1[0].0, entries1[0].1)[0]);
        assert(false);
    } else {
        lemma_joined_entries_front(entries1);
        lemma_joined_entries_front(entries2);
        let rest1: Seq<char> = if entries1.len() == 1 {
            t1
        } else {
            seq![','] + joined_entries(entries1.drop_first()) + t1
        };
        let rest2: Seq<char> = if entries2.len() == 1 {
            t2
        } else {
            seq![','] + joined_entries(entries2.drop_first()) + t2
        };
        assert(json_entry(entries1[0].0, entries1[0].1) + rest1 =~= s);
        assert(json_entry(entries2[0].0, entries2[0].1) + rest2 =~= joined_entries(entries2) + t2);
        lemma_entry_cancel(
            entries1[0].0,
            entries1[0].1,
            entries2[0].0,
            entries2[0].1,
            rest1,
            rest2,
        );
        if entries1.len() == 1 && entries2.len() == 1 {
            assert(entries1[0] == entries2[0]);
            assert(entries1 =~= entries2);
        } else if entries1.len() == 1 {
            assert(rest1[0] == ']');
            assert(rest2[0] == ',');
            assert(false);
        } else if entries2.len() == 1 {
            assert(rest1[0] == ',');
            assert(rest2[0] == ']');
            assert(false);
        } else {
            assert(seq![','] + (joined_entries(entries1.drop_first()) + t1) =~= rest1);
            assert(seq![','] + (joined_entries(entries2.drop_first()) + t2) =~= rest2);
            lemma_prefix_cancel(
                seq![','],
                joined_entries(entries1.drop_first()) + t1,
                joined_entries(entries2.drop_first()) + t2,
            );
            lemma_joined_entries_cancel(entries1.drop_first(), entries2.drop_first(), t1, t2);
            assert forall|i: int| 0 <= i < entries1.len() implies entries1[i] == entries2[i] by {
                if i > 0 {
                    assert(entries1.drop_first()[i - 1] == entries2.drop_first()[i - 1]);
                }
            }
            assert(entries1 =~= entries2);
        }
    }
}

/// Law: the JSON graph export is injective.  Equal export texts come
/// from equal node and edge lists, so a path finder rebuilt from an
/// export carries the adjacency of the exact edge list exported, and
/// the export/reparse round trip preserves the connected components.
#[verifier::rlimit(60)]
pub proof fn lemma_graph_json_injective(
    n1: Seq<Seq<char>>,
    e1: Seq<(Seq<char>, Seq<char>)>,
    n2: Seq<Seq<char>>,
    e2: Seq<(Seq<char>, Seq<char>)>,
)
    requires
        forall|i: int| 0 <= i < n1.len() ==> quote_free(#[trigger] n1[i]),
        forall|i: int| 0 <= i < n2.len() ==> quote_free(#[trigger] n2[i]),
        forall|i: int| 0 <= i < e1.len() ==> quote_free((#[trigger] e1[i]).0) && quote_free(e1[i].1),
        forall|i: int| 0 <= i < e2.len() ==> quote_free((#[trigger] e2[i]).0) && quote_free(e2[i].1),
        graph_json(n1, e1) == graph_json(n2, e2),
    ensures
        n1 == n2,
        e1 == e2,
{
    reveal_strlit("{\"nodes\":");
    reveal_strlit(",\"edges\":");
    reveal_strlit("}");
    let head = ("{\"nodes\":")@ + seq!['['];
    let t1 = seq![']'] + (",\"edges\":")@ + seq!['['] + (joined_pairs(e1) + (seq![']'] + ("}")@));
    let t2 = seq![']'] + (",\"edges\":")@ + seq!['['] + (joined_pairs(e2) + (seq![']'] + ("}")@));
    assert(head + (joined_strings(n1) + t1) =~= graph_json(n1, e1));
    assert(head + (joined_strings(n2) + t2) =~= graph_json(n2, e2));
    lemma_prefix_cancel(head, joined_strings(n1) + t1, joined_strings(n2) + t2);
    assert(t1[0] == ']');
    assert(t2[0] == ']');
    lemma_joined_strings_cancel(n1, n2, t1, t2);
    let mid = seq![']'] + (",\"edges\":")@ + seq!['['];
    assert(mid + (joined_pairs(e1) + (seq![']'] + ("}")@)) =~= t1);
    assert(mid + (joined_pairs(e2) + (seq![']'] + ("}")@)) =~= t2);
    lemma_prefix_cancel(
        mid,
        joined_pairs(e1) + (seq![']'] + ("}")@),
        joined_pairs(e2) + (seq![']'] + ("}")@),
    );
    assert((seq![']'] + ("}")@)[0] == ']');
    lemma_joined_pairs_cancel(e1, e2, seq![']'] + ("}")@, seq![']'] + ("}")@);
}

/// Law: the JSON crawl-state snapshot is injective.  Equal snapshot
/// texts come from equal queues and visited lists, so saving a state
/// and loading the saved text reproduces the exact frontier entries and
/// visited set.
#[verifier::rlimit(60)]
pub proof fn lemma_state_json_injective(
    q1: Seq<(Seq<char>, u64)>,
    v1: Seq<Seq<char>>,
    q2: Seq<(Seq<char>, u64)>,
    v2: Seq<Seq<char>>,
)
    requires
        forall|i: int| 0 <= i < q1.len() ==> quote_free((#[trigger] q1[i]).0),
        forall|i: int| 0 <= i < q2.len() ==> quote_free((#[trigger] q2[i]).0),
        forall|i: int| 0 <= i < v1.len() ==> quote_free(#[trigger] v1[i]),
        forall|i: int| 0 <= i < v2.len() ==> quote_free(#[trigger] v2[i]),
        state_json(q1, v1) == state_json(q2, v2),
    ensures
        q1 == q2,
        v1 == v2,
{
    reveal_strlit("{\"queue\":[");
    reveal_strlit("],\"visited\":");
    reveal_strlit("}");
    let head = ("{\"queue\":[")@;
    let t1 = ("],\"visited\":")@ + seq!['['] + (joined_strings(v1) + (seq![']'] + ("}")@));
    let t2 = ("],\"visited\":")@ + seq!['['] + (joined_strings(v2) + (seq![']'] + ("}")@));
    assert(head + (joined_entries(q1) + t1) =~= state_json(q1, v1));
    assert(head + (joined_entries(q2) + t2) =~= state_json(q2, v2));
    lemma_prefix_cancel(head, joined_entries(q1) + t1, joined_entries(q2) + t2);
    assert(t1[0] == ']');
    assert(t2[0] == ']');
    lemma_joined_entries_cancel(q1, q2, t1, t2);
    let mid = ("],\"visited\":")@ + seq!['['];
    assert(mid + (joined_strings(v1) + (seq![']'] + ("}")@)) =~= t1);
    assert(mid + (joined_strings(v2) + (seq![']'] + ("}")@)) =~= t2);
    lemma_prefix_cancel(
        mid,
        joined_strings(v1) + (seq![']'] + ("}")@),
        joined_strings(v2) + (seq![']'] + ("}")@),
    );
    assert((seq![']'] + ("}")@)[0] == ']');
    lemma_joined_strings_cancel(v1, v2, seq![']'] + ("}")@, seq![']'] + ("}")@);
}


/// Where `s` is a graph export, its pieces stand at their computed
/// offsets.
proof fn lemma_graph_layout(s: Seq<char>, nodes: Seq<Seq<char>>, edges: Seq<(Seq<char>, Seq<char>)>)
    requires
        s == graph_json(nodes, edges),
    ensures
        ({
            let jn = joined_strings(nodes);
            let jp = joined_pairs(edges);
            &&& s.len() == jn.len() + jp.len() + 23
            &&& s.subrange(0, 10) == ("{\"nodes\":[")@
            &&& s.subrange(10, 11 + jn.len() as int) == jn + seq![']']
            &&& s.subrange(11 + jn.len() as int, 21 + jn.len() as int) == (",\"edges\":[")@
            &&& s.subrange(21 + jn.len() as int, 22 + jn.len() + jp.len() as int) == jp + seq![']']
            &&& s.subrange(22 + jn.len() + jp.len() as int, s.len() as int) == ("}")@
        }),
{
    reveal_strlit("{\"nodes\":[");
    reveal_strlit("{\"nodes\":");
    reveal_strlit(",\"edges\":[");
    reveal_strlit(",\"edges\":");
    reveal_strlit("}");
    let jn = joined_strings(nodes);
    let jp = joined_pairs(edges);
    let whole = ("{\"nodes\":[")@ + (jn + seq![']']) + (",\"edges\":[")@ + (jp + seq![']'])
        + ("}")@;
    assert(s =~= whole);
    assert forall|j: int| 0 <= j < s.len() implies s[j] == whole[j] by {}
    assert(s.subrange(0, 10) =~= ("{\"nodes\":[")@);
    assert(s.subrange(10, 11 + jn.len() as int) =~= jn + seq![']']);
    assert(s.subrange(11 + jn.len() as int, 21 + jn.len() as int) =~= (",\"edges\":[")@);
    assert(s.subrange(21 + jn.len() as int, 22 + jn.len() + jp.len() as int) =~= jp + seq![']']);
    assert(s.subrange(22 + jn.len() + jp.len() as int, s.len() as int) =~= ("}")@);
}

/// A node list read after the header coincides with the export's node
/// list.
proof fn lemma_graph_ident_nodes(
    s: Seq<char>,
    nodes: Seq<Seq<char>>,
    edges: Seq<(Seq<char>, Seq<char>)>,
    dv: Seq<Seq<char>>,
    c2: int,
)
    requires
        s == graph_json(nodes, edges),
        forall|k: int| 0 <= k < nodes.len() ==> quote_free(#[trigger] nodes[k]),
        forall|k: int| 0 <= k < dv.len() ==> quote_free(#[trigger] dv[k]),
        10 < c2 <= s.len(),
        s.subrange(10, c2) == joined_strings(dv) + seq![']'],
    ensures
        dv == nodes,
        c2 == 11 + joined_strings(nodes).len() as int,
{
    lemma_graph_layout(s, nodes, edges);
    let jn = joined_strings(nodes);
    lemma_split_at(s, 10, c2);
    lemma_split_at(s, 10, 11 + jn.len() as int);
    assert(s.skip(10) =~= joined_strings(dv) + (seq![']'] + s.skip(c2)));
    assert(s.skip(10) =~= jn + (seq![']'] + s.skip(11 + jn.len() as int)));
    lemma_joined_strings_cancel(
        dv,
        nodes,
        seq![']'] + s.skip(c2),
        seq![']'] + s.skip(11 + jn.len() as int),
    );
    assert(s.skip(c2).len() == s.skip(11 + jn.len() as int).len());
}

/// An edge list read after the separator coincides with the export's
/// edge list.
proof fn lemma_graph_ident_pairs(
    s: Seq<char>,
    nodes: Seq<Seq<char>>,
    edges: Seq<(Seq<char>, Seq<char>)>,
    dv: Seq<(Seq<char>, Seq<char>)>,
    c4: int,
)
    requires
        s == graph_json(nodes, edges),
        forall|k: int| 0 <= k < edges.len() ==> quote_free((#[trigger] edges[k]).0) && quote_free(
            edges[k].1,
        ),
        forall|k: int| 0 <= k < dv.len() ==> quote_free((#[trigger] dv[k]).0) && quote_free(
            dv[k].1,
        ),
        21 + (joined_strings(nodes).len() as int) < c4 <= s.len(),
        s.subrange(21 + joined_strings(nodes).len() as int, c4) == joined_pairs(dv) + seq![']'],
    ensures
        dv == edges,
        c4 == 22 + (joined_strings(nodes).len() as int) + joined_pairs(edges).len() as int,
{
    lemma_graph_layout(s, nodes, edges);
    let jn = joined_strings(nodes);
    let jp = joined_pairs(edges);
    let c3: int = 21 + jn.len() as int;
    lemma_split_at(s, c3, c4);
    lemma_split_at(s, c3, c3 + jp.len() + 1 as int);
    assert(s.skip(c3) =~= joined_pairs(dv) + (seq![']'] + s.skip(c4)));
    assert(s.skip(c3) =~= jp + (seq![']'] + s.skip(c3 + jp.len() + 1 as int)));
    lemma_joined_pairs_cancel(
        dv,
        edges,
        seq![']'] + s.skip(c4),
        seq![']'] + s.skip(c3 + jp.len() + 1 as int),
    );
    assert(s.skip(c4).len() == s.skip(c3 + jp.len() + 1 as int).len());
}

/// Decodes a graph export: succeeds exactly on the export text of a
/// graph whose URLs are quote-free, and returns that graph's node and
/// edge lists.
pub fn parse_graph_json(s: &str) -> (r: Option<(Vec<String>, Vec<(String, String)>)>)
    ensures
        match r {
            Some(g) => {
                &&& s@ == graph_json(g.0.deep_view(), pair_views(g.1@))
                &&& (forall|k: int|
                    0 <= k < g.0.deep_view().len() ==> quote_free(#[trigger] g.0.deep_view()[k]))
                &&& (forall|k: int|
                    0 <= k < pair_views(g.1@).len() ==> quote_free(
                        (#[trigger] pair_views(g.1@)[k]).0,
                    ) && quote_free(pair_views(g.1@)[k].1))
            },
            None => forall|nodes: Seq<Seq<char>>, edges: Seq<(Seq<char>, Seq<char>)>|
                ((forall|k: int| 0 <= k < nodes.len() ==> quote_free(#[trigger] nodes[k])) && (
                forall|k: int|
                    0 <= k < edges.len() ==> quote_free((#[trigger] edges[k]).0) && quote_free(
                        edges[k].1,
                    ))) ==> s@ != graph_json(nodes, edges),
        },
{
    proof {
        reveal_strlit("{\"nodes\":[");
        reveal_strlit(",\"edges\":[");
        reveal_strlit("}");
    }
    let n = s.unicode_len();
    let c1 = match expect_lit(s, 0, "{\"nodes\":[") {
        Some(c) => c,
        None => {
            proof {
                assert forall|nodes: Seq<Seq<char>>, edges: Seq<(Seq<char>, Seq<char>)>|
                    ((forall|k: int| 0 <= k < nodes.len() ==> quote_free(#[trigger] nodes[k])) && (
                forall|k: int|
                    0 <= k < edges.len() ==> quote_free((#[trigger] edges[k]).0) && quote_free(
                        edges[k].1,
                    ))) implies s@ != graph_json(nodes, edges) by {
                    if s@ == graph_json(nodes, edges) {
                        lemma_graph_layout(s@, nodes, edges);
                        assert(false);
                    }
                }
            }
            return None;
        },
    };
    let items = raw_string_items(s, c1);
    if items.is_none() {
        proof {
            assert forall|nodes: Seq<Seq<char>>, edges: Seq<(Seq<char>, Seq<char>)>|
                ((forall|k: int| 0 <= k < nodes.len() ==> quote_free(#[trigger] nodes[k])) && (
            forall|k: int|
                0 <= k < edges.len() ==> quote_free((#[trigger] edges[k]).0) && quote_free(
                    edges[k].1,
                ))) implies s@ != graph_json(nodes, edges) by {
                if s@ == graph_json(nodes, edges) {
                    lemma_graph_layout(s@, nodes, edges);
                    assert(false);
                }
            }
        }
        return None;
    }
    let (nodes_vec, c2) = items.unwrap();
    proof {
        lemma_dv_strings(&nodes_vec);
    }
    let c3 = match expect_lit(s, c2, ",\"edges\":[") {
        Some(c) => c,
        None => {
            proof {
                assert forall|nodes: Seq<Seq<char>>, edges: Seq<(Seq<char>, Seq<char>)>|
                    ((forall|k: int| 0 <= k < nodes.len() ==> quote_free(#[trigger] nodes[k])) && (
                forall|k: int|
                    0 <= k < edges.len() ==> quote_free((#[trigger] edges[k]).0) && quote_free(
                        edges[k].1,
                    ))) implies s@ != graph_json(nodes, edges) by {
                    if s@ == graph_json(nodes, edges) {
                        lemma_graph_ident_nodes(s@, nodes, edges, nodes_vec.deep_view(), c2 as int);
                        lemma_graph_layout(s@, nodes, edges);
                        assert(false);
                    }
                }
            }
            return None;
        },
    };
    let pairs = raw_pair_items(s, c3);
    if pairs.is_none() {
        proof {
            assert forall|nodes: Seq<Seq<char>>, edges: Seq<(Seq<char>, Seq<char>)>|
                ((forall|k: int| 0 <= k < nodes.len() ==> quote_free(#[trigger] nodes[k])) && (
            forall|k: int|
                0 <= k < edges.len() ==> quote_free((#[trigger] edges[k]).0) && quote_free(
                    edges[k].1,
                ))) implies s@ != graph_json(nodes, edges) by {
                if s@ == graph_json(nodes, edges) {
                    lemma_graph_ident_nodes(s@, nodes, edges, nodes_vec.deep_view(), c2 as int);
                    lemma_graph_layout(s@, nodes, edges);
                    assert(false);
                }
            }
        }
        return None;
    }
    let (edges_vec, c4) = pairs.unwrap();
    let tail_ok = match expect_lit(s, c4, "}") {
        Some(c5) => c5 == n,
        None => false,
    };
    if !tail_ok {
        proof {
            assert forall|nodes: Seq<Seq<char>>, edges: Seq<(Seq<char>, Seq<char>)>|
                ((forall|k: int| 0 <= k < nodes.len() ==> quote_free(#[trigger] nodes[k])) && (
            forall|k: int|
                0 <= k < edges.len() ==> quote_free((#[trigger] edges[k]).0) && quote_free(
                    edges[k].1,
                ))) implies s@ != graph_json(nodes, edges) by {
                if s@ == graph_json(nodes, edges) {
                    lemma_graph_ident_nodes(s@, nodes, edges, nodes_vec.deep_view(), c2 as int);
                    lemma_graph_ident_pairs(s@, nodes, edges, pair_views(edges_vec@), c4 as int);
                    lemma_graph_layout(s@, nodes, edges);
                    assert(false);
                }
            }
        }
        return None;
    }
    proof {
        reveal_strlit("{\"nodes\":");
        reveal_strlit(",\"edges\":");
        assert(s@ =~= s@.subrange(0, c1 as int) + s@.subrange(c1 as int, c2 as int) + s@.subrange(
            c2 as int,
            c3 as int,
        ) + s@.subrange(c3 as int, c4 as int) + s@.subrange(c4 as int, n as int));
        assert(("{\"nodes\":[")@ =~= ("{\"nodes\":")@ + seq!['[']);
        assert((",\"edges\":[")@ =~= (",\"edges\":")@ + seq!['[']);
        assert(json_string_list(nodes_vec.deep_view()) =~= seq!['['] + (joined_strings(
            nodes_vec.deep_view(),
        ) + seq![']']));
        assert(json_pair_list(pair_views(edges_vec@)) =~= seq!['['] + (joined_pairs(
            pair_views(edges_vec@),
        ) + seq![']']));
        assert(s@ =~= graph_json(nodes_vec.deep_view(), pair_views(edges_vec@)));
    }
    Some((nodes_vec, edges_vec))
}

/// Where `s` is a crawl-state snapshot, its pieces stand at their
/// computed offsets.
proof fn lemma_state_layout(s: Seq<char>, q: Seq<(Seq<char>, u64)>, v: Seq<Seq<char>>)
    requires
        s == state_json(q, v),
    ensures
        ({
            let je = joined_entries(q);
            let jl = json_string_list(v);
            &&& s.len() == je.len() + jl.len() + 23
            &&& s.subrange(0, 10) == ("{\"queue\":[")@
            &&& entries_at(s, 10, q)
            &&& s.subrange(11 + je.len() as int, 22 + je.len() as int) == (",\"visited\":")@
            &&& s.subrange(22 + je.len() as int, 22 + je.len() + jl.len() as int) == jl
            &&& s.subrange(22 + je.len() + jl.len() as int, s.len() as int) == ("}")@
        }),
{
    reveal_strlit("{\"queue\":[");
    reveal_strlit("],\"visited\":");
    reveal_strlit(",\"visited\":");
    reveal_strlit("}");
    let je = joined_entries(q);
    let jl = json_string_list(v);
    assert(("],\"visited\":")@ =~= seq![']'] + (",\"visited\":")@);
    assert(jl =~= seq!['['] + joined_strings(v) + seq![']']);
    let whole = ("{\"queue\":[")@ + (je + seq![']']) + (",\"visited\":")@ + jl + ("}")@;
    assert(s =~= whole);
    assert forall|j: int| 0 <= j < s.len() implies s[j] == whole[j] by {}
    assert(s.subrange(0, 10) =~= ("{\"queue\":[")@);
    assert(s.subrange(10, 11 + je.len() as int) =~= je + seq![']']);
    assert(s.subrange(11 + je.len() as int, 22 + je.len() as int) =~= (",\"visited\":")@);
    assert(s.subrange(22 + je.len() as int, 22 + je.len() + jl.len() as int) =~= jl);
    assert(s.subrange(22 + je.len() + jl.len() as int, s.len() as int) =~= ("}")@);
}

/// A string list read after the separator coincides with the
/// snapshot's visited list.
proof fn lemma_state_ident_visited(
    s: Seq<char>,
    q: Seq<(Seq<char>, u64)>,
    v: Seq<Seq<char>>,
    dv: Seq<Seq<char>>,
    c4: int,
)
    requires
        s == state_json(q, v),
        forall|k: int| 0 <= k < v.len() ==> quote_free(#[trigger] v[k]),
        forall|k: int| 0 <= k < dv.len() ==> quote_free(#[trigger] dv[k]),
        22 + (joined_entries(q).len() as int) < c4 <= s.len(),
        s.subrange(22 + joined_entries(q).len() as int, c4) == json_string_list(dv),
    ensures
        dv == v,
        c4 == 22 + (joined_entries(q).len() as int) + json_string_list(v).len() as int,
{
    lemma_state_layout(s, q, v);
    let je = joined_entries(q);
    let jl = json_string_list(v);
    let p = 22 + je.len() as int;
    // both complete lists start at `p`: strip the bracket and cancel
    assert(s.subrange(p, c4)[0] == s[p]);
    assert(s[p] == '[');
    lemma_split_at(s, p, c4);
    lemma_split_at(s, p, p + jl.len() as int);
    assert(s.skip(p) =~= json_string_list(dv) + s.skip(c4));
    assert(s.skip(p) =~= jl + s.skip(p + jl.len() as int));
    assert(json_string_list(dv) + s.skip(c4) =~= seq!['['] + (joined_strings(dv) + (seq![']']
        + s.skip(c4))));
    assert(jl + s.skip(p + jl.len() as int) =~= seq!['['] + (joined_strings(v) + (seq![']']
        + s.skip(p + jl.len() as int))));
    lemma_prefix_cancel(
        seq!['['],
        joined_strings(dv) + (seq![']'] + s.skip(c4)),
        joined_strings(v) + (seq![']'] + s.skip(p + jl.len() as int)),
    );
    lemma_joined_strings_cancel(
        dv,
        v,
        seq![']'] + s.skip(c4),
        seq![']'] + s.skip(p + jl.len() as int),
    );
    assert(s.skip(c4).len() == s.skip(p + jl.len() as int).len());
}

/// Decodes a crawl-state snapshot: succeeds exactly on the snapshot
/// text of a state whose URLs are quote-free and whose depths the
/// platform can hold, and returns that state's queue and visited list.
#[verifier::rlimit(100)]
pub fn parse_state_json(s: &str) -> (r: Option<(Vec<(String, usize)>, Vec<String>)>)
    ensures
        match r {
            Some(st) => {
                &&& s@ == state_json(entry_views_u64(st.0@), st.1.deep_view())
                &&& (forall|k: int|
                    0 <= k < entry_views_u64(st.0@).len() ==> quote_free(
                        (#[trigger] entry_views_u64(st.0@)[k]).0,
                    ))
                &&& (forall|k: int|
                    0 <= k < entry_views_u64(st.0@).len() ==> (#[trigger] entry_views_u64(
                        st.0@,
                    )[k]).1 <= usize::MAX as u64)
                &&& (forall|k: int|
                    0 <= k < st.1.deep_view().len() ==> quote_free(#[trigger] st.1.deep_view()[k]))
            },
            None => forall|q: Seq<(Seq<char>, u64)>, v: Seq<Seq<char>>|
                ((forall|k: int| 0 <= k < q.len() ==> quote_free((#[trigger] q[k]).0)) && (
                forall|k: int| 0 <= k < q.len() ==> (#[trigger] q[k]).1 <= usize::MAX as u64) && (
                forall|k: int| 0 <= k < v.len() ==> quote_free(#[trigger] v[k]))) ==> s@
                    != state_json(q, v),
        },
{
    proof {
        reveal_strlit("{\"queue\":[");
        reveal_strlit(",\"visited\":");
        reveal_strlit("}");
    }
    let n = s.unicode_len();
    let c1 = match expect_lit(s, 0, "{\"queue\":[") {
        Some(c) => c,
        None => {
            proof {
                assert forall|q: Seq<(Seq<char>, u64)>, v: Seq<Seq<char>>|
                    ((forall|k: int| 0 <= k < q.len() ==> quote_free((#[trigger] q[k]).0)) && (
                forall|k: int| 0 <= k < q.len() ==> (#[trigger] q[k]).1 <= usize::MAX as u64) && (
                forall|k: int| 0 <= k < v.len() ==> quote_free(#[trigger] v[k]))) implies s@
                    != state_json(q, v) by {
                    if s@ == state_json(q, v) {
                        lemma_state_layout(s@, q, v);
                        assert(false);
                    }
                }
            }
            return None;
        },
    };
    let entries = raw_entry_items(s, c1);
    if entries.is_none() {
        proof {
            assert forall|q: Seq<(Seq<char>, u64)>, v: Seq<Seq<char>>|
                ((forall|k: int| 0 <= k < q.len() ==> quote_free((#[trigger] q[k]).0)) && (
            forall|k: int| 0 <= k < q.len() ==> (#[trigger] q[k]).1 <= usize::MAX as u64) && (
            forall|k: int| 0 <= k < v.len() ==> quote_free(#[trigger] v[k]))) implies s@
                != state_json(q, v) by {
                if s@ == state_json(q, v) {
                    lemma_state_layout(s@, q, v);
                    assert(false);
                }
            }
        }
        return None;
    }
    let (queue, c2) = entries.unwrap();
    let c3 = match expect_lit(s, c2, ",\"visited\":") {
        Some(c) => c,
        None => {
            proof {
                assert forall|q: Seq<(Seq<char>, u64)>, v: Seq<Seq<char>>|
                    ((forall|k: int| 0 <= k < q.len() ==> quote_free((#[trigger] q[k]).0)) && (
                forall|k: int| 0 <= k < q.len() ==> (#[trigger] q[k]).1 <= usize::MAX as u64) && (
                forall|k: int| 0 <= k < v.len() ==> quote_free(#[trigger] v[k]))) implies s@
                    != state_json(q, v) by {
                    if s@ == state_json(q, v) {
                        lemma_state_layout(s@, q, v);
                        assert(entry_views_u64(queue@) == q && c2 == 10 + joined_entries(q).len()
                            + 1);
                        assert(false);
                    }
                }
            }
            return None;
        },
    };
    let vis = raw_string_list(s, c3);
    if vis.is_none() {
        proof {
            assert forall|q: Seq<(Seq<char>, u64)>, v: Seq<Seq<char>>|
                ((forall|k: int| 0 <= k < q.len() ==> quote_free((#[trigger] q[k]).0)) && (
            forall|k: int| 0 <= k < q.len() ==> (#[trigger] q[k]).1 <= usize::MAX as u64) && (
            forall|k: int| 0 <= k < v.len() ==> quote_free(#[trigger] v[k]))) implies s@
                != state_json(q, v) by {
                if s@ == state_json(q, v) {
                    lemma_state_layout(s@, q, v);
                    assert(entry_views_u64(queue@) == q && c2 == 10 + joined_entries(q).len() + 1);
                    assert(false);
                }
            }
        }
        return None;
    }
    let (visited, c4) = vis.unwrap();
    let tail_ok = match expect_lit(s, c4, "}") {
        Some(c5) => c5 == n,
        None => false,
    };
    if !tail_ok {
        proof {
            assert forall|q: Seq<(Seq<char>, u64)>, v: Seq<Seq<char>>|
                ((forall|k: int| 0 <= k < q.len() ==> quote_free((#[trigger] q[k]).0)) && (
            forall|k: int| 0 <= k < q.len() ==> (#[trigger] q[k]).1 <= usize::MAX as u64) && (
            forall|k: int| 0 <= k < v.len() ==> quote_free(#[trigger] v[k]))) implies s@
                != state_json(q, v) by {
                if s@ == state_json(q, v) {
                    lemma_state_layout(s@, q, v);
                    assert(entry_views_u64(queue@) == q && c2 == 10 + joined_entries(q).len() + 1);
                    lemma_state_ident_visited(s@, q, v, visited.deep_view(), c4 as int);
                    assert(false);
                }
            }
        }
        return None;
    }
    let re = state_to_json(&queue, &visited);
    let original = s.to_owned();
    if re == original {
        Some((queue, visited))
    } else {
        proof {
            assert forall|q: Seq<(Seq<char>, u64)>, v: Seq<Seq<char>>|
                ((forall|k: int| 0 <= k < q.len() ==> quote_free((#[trigger] q[k]).0)) && (
            forall|k: int| 0 <= k < q.len() ==> (#[trigger] q[k]).1 <= usize::MAX as u64) && (
            forall|k: int| 0 <= k < v.len() ==> quote_free(#[trigger] v[k]))) implies s@
                != state_json(q, v) by {
                if s@ == state_json(q, v) {
                    lemma_state_layout(s@, q, v);
                    assert(entry_views_u64(queue@) == q && c2 == 10 + joined_entries(q).len() + 1);
                    lemma_state_ident_visited(s@, q, v, visited.deep_view(), c4 as int);
                    assert(re@ == state_json(q, v));
                    assert(false);
                }
            }
        }
        None
    }
}

} // verus!
