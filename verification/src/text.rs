//! Text export of the Mapper graph: decimal numbers, the Graphviz DOT
//! format and the tab-separated edge list.
use vstd::prelude::*;

verus! {

/// The character of decimal digit `d`.
pub open spec fn digit_char(d: nat) -> char {
    if d == 0 {
        '0'
    } else if d == 1 {
        '1'
    } else if d == 2 {
        '2'
    } else if d == 3 {
        '3'
    } else if d == 4 {
        '4'
    } else if d == 5 {
        '5'
    } else if d == 6 {
        '6'
    } else if d == 7 {
        '7'
    } else if d == 8 {
        '8'
    } else {
        '9'
    }
}

/// Decimal notation of `n`, without leading zeros.
pub open spec fn decimal(n: nat) -> Seq<char>
    decreases n,
{
    if n < 10 {
        seq![digit_char(n)]
    } else {
        decimal(n / 10).push(digit_char(n % 10))
    }
}

fn digit_text(d: usize) -> (s: &'static str)
    requires
        d < 10,
    ensures
        s@ == seq![digit_char(d as nat)],
{
    if d == 0 {
        proof {
            reveal_strlit("0");
        }
        "0"
    } else if d == 1 {
        proof {
            reveal_strlit("1");
        }
        "1"
    } else if d == 2 {
        proof {
            reveal_strlit("2");
        }
        "2"
    } else if d == 3 {
        proof {
            reveal_strlit("3");
        }
        "3"
    } else if d == 4 {
        proof {
            reveal_strlit("4");
        }
        "4"
    } else if d == 5 {
        proof {
            reveal_strlit("5");
        }
        "5"
    } else if d == 6 {
        proof {
            reveal_strlit("6");
        }
        "6"
    } else if d == 7 {
        proof {
            reveal_strlit("7");
        }
        "7"
    } else if d == 8 {
        proof {
            reveal_strlit("8");
        }
        "8"
    } else {
        proof {
            reveal_strlit("9");
        }
        "9"
    }
}

/// Append the decimal notation of `n`.
pub fn push_decimal(s: &mut String, n: usize)
    ensures
        final(s)@ == old(s)@ + decimal(n as nat),
    decreases n,
{
    if n >= 10 {
        push_decimal(s, n / 10);
    }
    s.append(digit_text(n % 10));
    proof {
        if n >= 10 {
            assert(old(s)@ + decimal(n as nat) =~= old(s)@ + decimal((n / 10) as nat) + seq![
                digit_char((n % 10) as nat),
            ]);
        } else {
            assert(old(s)@ + decimal(n as nat) =~= old(s)@ + seq![digit_char((n % 10) as nat)]);
        }
    }
}

} // verus!

verus! {

/// DOT line declaring node `index` with its size.
pub open spec fn dot_node_line(index: usize, size: usize) -> Seq<char> {
    "  "@ + decimal(index as nat) + " [label=\"n"@ + decimal(index as nat) + " (size="@ + decimal(
        size as nat,
    ) + ")\"];\n"@
}

/// DOT line for the edge `a -- b`.
pub open spec fn dot_edge_line(a: usize, b: usize) -> Seq<char> {
    "  "@ + decimal(a as nat) + " -- "@ + decimal(b as nat) + ";\n"@
}

/// DOT lines of the first `k` nodes, given as (index, size).
pub open spec fn dot_node_lines(nodes: Seq<(usize, usize)>, k: int) -> Seq<char>
    decreases k,
{
    if k <= 0 {
        seq![]
    } else {
        dot_node_lines(nodes, k - 1) + dot_node_line(nodes[k - 1].0, nodes[k - 1].1)
    }
}

/// DOT lines of the first `k` edges.
pub open spec fn dot_edge_lines(edges: Seq<(usize, usize)>, k: int) -> Seq<char>
    decreases k,
{
    if k <= 0 {
        seq![]
    } else {
        dot_edge_lines(edges, k - 1) + dot_edge_line(edges[k - 1].0, edges[k - 1].1)
    }
}

/// The DOT document of a graph: header, one line per node, one per edge, footer.
pub open spec fn dot_document(nodes: Seq<(usize, usize)>, edges: Seq<(usize, usize)>) -> Seq<char> {
    "graph mapper {\n"@ + dot_node_lines(nodes, nodes.len() as int) + dot_edge_lines(
        edges,
        edges.len() as int,
    ) + "}\n"@
}

/// Graphviz DOT text of a graph whose nodes are given as (index, size).
pub fn dot_text(nodes: &Vec<(usize, usize)>, edge_list: &Vec<(usize, usize)>) -> (s: String)
    ensures
        s@ == dot_document(nodes@, edge_list@),
{
    let mut s = String::new();
    s.append("graph mapper {\n");
    let ghost head = s@;
    let mut k: usize = 0;
    while k < nodes.len()
        invariant
            k <= nodes@.len(),
            s@ == head + dot_node_lines(nodes@, k as int),
        decreases nodes@.len() - k,
    {
        let (index, size) = nodes[k];
        s.append("  ");
        push_decimal(&mut s, index);
        s.append(" [label=\"n");
        push_decimal(&mut s, index);
        s.append(" (size=");
        push_decimal(&mut s, size);
        s.append(")\"];\n");
        proof {
            assert(s@ =~= head + dot_node_lines(nodes@, k + 1));
        }
        k = k + 1;
    }
    let ghost mid = s@;
    let mut k: usize = 0;
    while k < edge_list.len()
        invariant
            k <= edge_list@.len(),
            s@ == mid + dot_edge_lines(edge_list@, k as int),
        decreases edge_list@.len() - k,
    {
        let (a, b) = edge_list[k];
        s.append("  ");
        push_decimal(&mut s, a);
        s.append(" -- ");
        push_decimal(&mut s, b);
        s.append(";\n");
        proof {
            assert(s@ =~= mid + dot_edge_lines(edge_list@, k + 1));
        }
        k = k + 1;
    }
    s.append("}\n");
    proof {
        assert(s@ =~= dot_document(nodes@, edge_list@));
    }
    s
}

/// Line `a<TAB>b` of the edge list.
pub open spec fn tsv_line(a: usize, b: usize) -> Seq<char> {
    decimal(a as nat) + "\t"@ + decimal(b as nat)
}

/// The first `k` edges, one `a<TAB>b` line each, joined by newlines.
pub open spec fn tsv_lines(edges: Seq<(usize, usize)>, k: int) -> Seq<char>
    decreases k,
{
    if k <= 0 {
        seq![]
    } else if k == 1 {
        tsv_line(edges[0].0, edges[0].1)
    } else {
        tsv_lines(edges, k - 1) + "\n"@ + tsv_line(edges[k - 1].0, edges[k - 1].1)
    }
}

/// Tab-separated edge list: `a<TAB>b` per edge, lines joined by newlines.
pub fn edge_list_text(edge_list: &Vec<(usize, usize)>) -> (s: String)
    ensures
        s@ == tsv_lines(edge_list@, edge_list@.len() as int),
{
    let mut s = String::new();
    proof {
        assert(s@ =~= tsv_lines(edge_list@, 0));
    }
    let mut k: usize = 0;
    while k < edge_list.len()
        invariant
            k <= edge_list@.len(),
            s@ == tsv_lines(edge_list@, k as int),
        decreases edge_list@.len() - k,
    {
        let ghost before = s@;
        let (a, b) = edge_list[k];
        if k > 0 {
            s.append("\n");
        }
        push_decimal(&mut s, a);
        s.append("\t");
        push_decimal(&mut s, b);
        proof {
            if k == 0 {
                assert(s@ =~= tsv_lines(edge_list@, 1));
            } else {
                assert(s@ =~= tsv_lines(edge_list@, k + 1));
            }
        }
        k = k + 1;
    }
    s
}

} // verus!

verus! {

/// The value of a string of decimal digits, most significant first.
pub open spec fn digits_value(s: Seq<char>) -> int
    decreases s.len(),
{
    if s.len() == 0 {
        0
    } else {
        digits_value(s.drop_last()) * 10 + (s.last() as int - '0' as int)
    }
}

/// `c` is one of the characters `0` to `9`.
pub open spec fn is_digit(c: char) -> bool {
    '0' as int <= c as int <= '9' as int
}

/// The character of digit `d` is the one `d` places after `0`.
pub proof fn lemma_digit_char(d: nat)
    requires
        d < 10,
    ensures
        digit_char(d) as int == '0' as int + d,
        is_digit(digit_char(d)),
{
}

/// `decimal(n)` is the base-ten notation of `n`: a non-empty string of
/// digits whose value is `n`, starting with `0` only for `n == 0`.
pub proof fn lemma_decimal(n: nat)
    ensures
        decimal(n).len() >= 1,
        forall|i: int| 0 <= i < decimal(n).len() ==> is_digit(#[trigger] decimal(n)[i]),
        digits_value(decimal(n)) == n,
        decimal(n)[0] == '0' ==> n == 0,
    decreases n,
{
    if n < 10 {
        lemma_digit_char(n);
        assert(decimal(n).drop_last() =~= Seq::<char>::empty());
        assert(digits_value(decimal(n).drop_last()) == 0);
        assert(decimal(n).last() == digit_char(n));
        assert(digits_value(decimal(n)) == digit_char(n) as int - '0' as int);
    } else {
        lemma_decimal(n / 10);
        lemma_digit_char(n % 10);
        let d = decimal(n);
        assert(d.drop_last() =~= decimal(n / 10));
        assert(d.last() == digit_char(n % 10));
        assert(n == (n / 10) * 10 + n % 10);
        assert(d[0] == decimal(n / 10)[0]);
        assert(digits_value(d) == digits_value(decimal(n / 10)) * 10 + (n % 10));
    }
}

proof fn lemma_dot_edge_lines_prefix(edges: Seq<(usize, usize)>, e: (usize, usize), k: int)
    requires
        0 <= k <= edges.len(),
    ensures
        dot_edge_lines(edges.push(e), k) == dot_edge_lines(edges, k),
    decreases k,
{
    if k > 0 {
        lemma_dot_edge_lines_prefix(edges, e, k - 1);
        assert(edges.push(e)[k - 1] == edges[k - 1]);
    }
}

proof fn lemma_dot_node_lines_prefix(nodes: Seq<(usize, usize)>, nd: (usize, usize), k: int)
    requires
        0 <= k <= nodes.len(),
    ensures
        dot_node_lines(nodes.push(nd), k) == dot_node_lines(nodes, k),
    decreases k,
{
    if k > 0 {
        lemma_dot_node_lines_prefix(nodes, nd, k - 1);
        assert(nodes.push(nd)[k - 1] == nodes[k - 1]);
    }
}

/// The text without its last two characters (the closing `}` line).
pub open spec fn without_footer(s: Seq<char>) -> Seq<char> {
    s.subrange(0, s.len() - 2)
}

/// The DOT document is fixed by three facts: with no nodes and no edges it
/// is the header and footer; adding a node (with no edges) adds its line
/// just before the footer; adding an edge adds one `a -- b;` line just
/// before the footer, for every edge, whatever the number of nodes.
pub proof fn lemma_dot_document(nodes: Seq<(usize, usize)>, edges: Seq<(usize, usize)>, nd: (usize, usize), e: (usize, usize))
    ensures
        dot_document(Seq::empty(), Seq::empty()) == "graph mapper {\n"@ + "}\n"@,
        dot_document(nodes.push(nd), Seq::empty()) == without_footer(dot_document(nodes, Seq::empty()))
            + "  "@ + decimal(nd.0 as nat) + " [label=\"n"@ + decimal(nd.0 as nat) + " (size="@ + decimal(
            nd.1 as nat,
        ) + ")\"];\n"@ + "}\n"@,
        dot_document(nodes, edges.push(e)) == without_footer(dot_document(nodes, edges)) + "  "@ + decimal(
            e.0 as nat,
        ) + " -- "@ + decimal(e.1 as nat) + ";\n"@ + "}\n"@,
{
    reveal_strlit("}\n");
    let hd = "graph mapper {\n"@;
    let ft = "}\n"@;
    assert(ft.len() == 2);
    assert(dot_document(Seq::empty(), Seq::empty()) =~= hd + ft);
    lemma_dot_node_lines_prefix(nodes, nd, nodes.len() as int);
    let n0 = dot_node_lines(nodes, nodes.len() as int);
    let e0 = dot_edge_lines(Seq::<(usize, usize)>::empty(), 0);
    assert(e0 =~= Seq::<char>::empty());
    let d1 = dot_document(nodes, Seq::empty());
    assert(d1 =~= hd + n0 + e0 + ft);
    assert(without_footer(d1) =~= hd + n0);
    assert(dot_node_lines(nodes.push(nd), (nodes.len() + 1) as int) == n0 + dot_node_line(nd.0, nd.1));
    assert(dot_document(nodes.push(nd), Seq::empty()) =~= without_footer(d1) + dot_node_line(nd.0, nd.1)
        + ft);
    lemma_dot_edge_lines_prefix(edges, e, edges.len() as int);
    let el = dot_edge_lines(edges, edges.len() as int);
    let d2 = dot_document(nodes, edges);
    assert(d2 =~= hd + n0 + el + ft);
    assert(without_footer(d2) =~= hd + n0 + el);
    assert(dot_edge_lines(edges.push(e), (edges.len() + 1) as int) == el + dot_edge_line(e.0, e.1));
    assert(dot_document(nodes, edges.push(e)) =~= without_footer(d2) + dot_edge_line(e.0, e.1) + ft);
}

proof fn lemma_tsv_lines_prefix(edges: Seq<(usize, usize)>, e: (usize, usize), k: int)
    requires
        0 <= k <= edges.len(),
    ensures
        tsv_lines(edges.push(e), k) == tsv_lines(edges, k),
    decreases k,
{
    if k > 0 {
        lemma_tsv_lines_prefix(edges, e, k - 1);
        assert(edges.push(e)[k - 1] == edges[k - 1]);
        assert(edges.push(e)[0] == edges[0]);
    }
}

/// The edge list text is fixed by two facts: without edges it is empty, and
/// adding an edge adds its `a<TAB>b` line, after a newline when there are
/// edges before it.
pub proof fn lemma_edge_list_text(edges: Seq<(usize, usize)>, e: (usize, usize))
    ensures
        tsv_lines(Seq::empty(), 0) == Seq::<char>::empty(),
        tsv_lines(edges.push(e), (edges.len() + 1) as int) == if edges.len() == 0 {
            decimal(e.0 as nat) + "\t"@ + decimal(e.1 as nat)
        } else {
            tsv_lines(edges, edges.len() as int) + "\n"@ + decimal(e.0 as nat) + "\t"@ + decimal(
                e.1 as nat,
            )
        },
{
    lemma_tsv_lines_prefix(edges, e, edges.len() as int);
    if edges.len() == 0 {
        assert(edges.push(e)[0] == e);
    } else {
        assert(edges.push(e)[edges.len() as int] == e);
    }
}

} // verus!
