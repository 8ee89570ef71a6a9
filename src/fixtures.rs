use vstd::prelude::*;
use vstd::string::*;

verus! {

/// One step of a depth-first walk over a parsed HTML document.
///
/// Every node is entered by exactly one of `Element`, `Text` or `Other`
/// and left by a later `Close`; what lies between is the node's subtree.
pub enum Token {
    /// Entering an element, with its tag name.
    Element(String),
    /// Entering a text node, with its contents.
    Text(String),
    /// Entering any other node (the document root, a comment, a doctype).
    Other,
    /// Leaving the node entered most recently and not yet left.
    Close,
}

/// Mathematical view of a [`Token`].
pub enum TokenView {
    Element(Seq<char>),
    Text(Seq<char>),
    Other,
    Close,
}

impl View for Token {
    type V = TokenView;

    open spec fn view(&self) -> TokenView {
        match self {
            Token::Element(n) => TokenView::Element(n@),
            Token::Text(t) => TokenView::Text(t@),
            Token::Other => TokenView::Other,
            Token::Close => TokenView::Close,
        }
    }
}

pub open spec fn token_views(ts: Seq<Token>) -> Seq<TokenView> {
    ts.map_values(|t: Token| t@)
}

/// The walk of the document tree that an HTML parser builds from `html`.
pub uninterp spec fn html_tokens(html: Seq<char>) -> Seq<TokenView>;

/// Relies on scraper's `Html::parse_document` to build the document tree
/// (never failing, whatever the markup), and on ego_tree's `traverse`, which
/// yields an open edge and a close edge for every node, in document order.
#[verifier::external_body]
fn document_tokens(html: &str) -> (r: Vec<Token>)
    ensures
        token_views(r@) == html_tokens(html@),
{
    let doc = scraper::Html::parse_document(html);
    doc.tree.root().traverse().map(|edge| match edge {
        ego_tree::iter::Edge::Open(node) => match node.value() {
            scraper::Node::Element(e) => Token::Element(e.name().to_string()),
            scraper::Node::Text(t) => Token::Text(t.to_string()),
            _ => Token::Other,
        },
        ego_tree::iter::Edge::Close(_) => Token::Close,
    }).collect()
}

pub open spec fn pre_tag() -> Seq<char> {
    seq!['p', 'r', 'e']
}

pub open spec fn code_tag() -> Seq<char> {
    seq!['c', 'o', 'd', 'e']
}

/// The name a token gives the node it enters: the tag name of an element,
/// nothing for any other node.
pub open spec fn node_name(t: TokenView) -> Seq<char> {
    match t {
        TokenView::Element(n) => n,
        _ => Seq::empty(),
    }
}

/// Names of the nodes still open just before position `k`: the ancestors of
/// whatever starts at `k`, outermost first.
pub open spec fn open_names(toks: Seq<TokenView>, k: int) -> Seq<Seq<char>>
    decreases k,
{
    if k <= 0 {
        Seq::empty()
    } else {
        let s = open_names(toks, k - 1);
        match toks[k - 1] {
            TokenView::Close => if s.len() > 0 {
                s.drop_last()
            } else {
                s
            },
            t => s.push(node_name(t)),
        }
    }
}

/// Position `i` enters a `code` element whose parent is a `pre` element.
pub open spec fn is_fixture_start(toks: Seq<TokenView>, i: int) -> bool {
    &&& 0 <= i < toks.len()
    &&& toks[i] == TokenView::Element(code_tag())
    &&& open_names(toks, i).len() > 0
    &&& open_names(toks, i).last() == pre_tag()
}

/// Text met from position `j` on while the enclosing element is still open,
/// `depth` counting the nodes entered and not yet left, that element included.
pub open spec fn inner_text(toks: Seq<TokenView>, j: int, depth: int) -> Seq<char>
    decreases toks.len() - j,
{
    if j < 0 || j >= toks.len() || depth <= 0 {
        Seq::empty()
    } else {
        match toks[j] {
            TokenView::Close => inner_text(toks, j + 1, depth - 1),
            TokenView::Text(s) => s + inner_text(toks, j + 1, depth + 1),
            _ => inner_text(toks, j + 1, depth + 1),
        }
    }
}

/// The text of the element entered at position `i`.
pub open spec fn element_text(toks: Seq<TokenView>, i: int) -> Seq<char> {
    inner_text(toks, i + 1, 1)
}

/// Positions below `k` that enter a fixture, in increasing order.
pub open spec fn fixture_positions(toks: Seq<TokenView>, k: int) -> Seq<int>
    decreases k,
{
    if k <= 0 {
        Seq::empty()
    } else {
        let p = fixture_positions(toks, k - 1);
        if is_fixture_start(toks, k - 1) {
            p.push(k - 1)
        } else {
            p
        }
    }
}

/// The fixtures of a document: the text of each `code` element directly
/// inside a `pre` element, in document order.
pub open spec fn fixtures_of(toks: Seq<TokenView>) -> Seq<Seq<char>> {
    fixture_positions(toks, toks.len() as int).map_values(|i: int| element_text(toks, i))
}

pub open spec fn string_views(v: Seq<String>) -> Seq<Seq<char>> {
    v.map_values(|s: String| s@)
}

/// Whether two strings hold the same characters.
fn same_chars(a: &str, b: &str) -> (r: bool)
    ensures
        r == (a@ == b@),
{
    let n = a.unicode_len();
    if n != b.unicode_len() {
        return false;
    }
    let mut i: usize = 0;
    while i < n
        invariant
            n == a@.len(),
            n == b@.len(),
            i <= n,
            forall|k: int| 0 <= k < i ==> a@[k] == b@[k],
        decreases n - i,
    {
        if a.get_char(i) != b.get_char(i) {
            return false;
        }
        i += 1;
    }
    assert(a@ =~= b@);
    true
}

/// Concatenates the text inside the element entered at position `i`.
fn collect_text(tokens: &Vec<Token>, i: usize) -> (r: String)
    requires
        i < tokens@.len(),
    ensures
        r@ == element_text(token_views(tokens@), i as int),
{
    let ghost tv = token_views(tokens@);
    let n = tokens.len();
    let mut acc = String::new();
    let mut j: usize = i + 1;
    let mut depth: usize = 1;
    while j < tokens.len() && depth > 0
        invariant
            tv == token_views(tokens@),
            i < j <= tokens@.len(),
            depth <= j - i,
            acc@ + inner_text(tv, j as int, depth as int) == element_text(tv, i as int),
        decreases tokens@.len() - j,
    {
        assert(tv[j as int] == tokens@[j as int]@);
        match &tokens[j] {
            Token::Close => {
                depth -= 1;
            },
            Token::Text(t) => {
                let ghost before = acc@;
                acc.append(t.as_str());
                assert(before + (t@ + inner_text(tv, j + 1, depth + 1)) =~= acc@ + inner_text(
                    tv,
                    j + 1,
                    depth + 1,
                ));
                depth += 1;
            },
            _ => {
                depth += 1;
            },
        }
        j += 1;
    }
    assert(acc@ + inner_text(tv, j as int, depth as int) =~= acc@);
    acc
}

/// Extracts the fixtures of a walked document: for each `code` element whose
/// parent is a `pre` element, in document order, the concatenation of all the
/// text inside it.
pub fn extract_fixtures(tokens: &Vec<Token>) -> (r: Vec<String>)
    ensures
        string_views(r@) == fixtures_of(token_views(tokens@)),
{
    let ghost tv = token_views(tokens@);
    let mut names: Vec<String> = Vec::new();
    let mut out: Vec<String> = Vec::new();
    let mut i: usize = 0;
    proof {
        reveal_strlit("pre");
        reveal_strlit("code");
        assert("pre"@ =~= pre_tag());
        assert("code"@ =~= code_tag());
    }
    while i < tokens.len()
        invariant
            tv == token_views(tokens@),
            i <= tokens@.len(),
            "pre"@ == pre_tag(),
            "code"@ == code_tag(),
            string_views(names@) == open_names(tv, i as int),
            string_views(out@) == fixture_positions(tv, i as int).map_values(
                |p: int| element_text(tv, p),
            ),
        decreases tokens@.len() - i,
    {
        assert(tv[i as int] == tokens@[i as int]@);
        let ghost names0 = names@;
        let ghost out0 = out@;
        let starts = match &tokens[i] {
            Token::Element(n) => {
                if same_chars(n.as_str(), "code") && names.len() > 0 {
                    same_chars(names[names.len() - 1].as_str(), "pre")
                } else {
                    false
                }
            },
            _ => false,
        };
        assert(names0.len() > 0 ==> string_views(names0).last() == names0.last()@);
        assert(starts == is_fixture_start(tv, i as int));
        if starts {
            let text = collect_text(tokens, i);
            out.push(text);
            let ghost fp = fixture_positions(tv, i as int);
            assert(fixture_positions(tv, i + 1) == fp.push(i as int));
            assert(out@ == out0.push(text));
            assert(string_views(out0).len() == out0.len());
            assert(fp.map_values(|p: int| element_text(tv, p)).len() == fp.len());
            assert forall|k: int| 0 <= k < out0.len() implies string_views(out@)[k] == element_text(
                tv,
                fp[k],
            ) by {
                assert(string_views(out0)[k] == out0[k]@);
                assert(fp.map_values(|p: int| element_text(tv, p))[k] == element_text(tv, fp[k]));
            }
            assert(string_views(out@) =~= fixture_positions(tv, i + 1).map_values(
                |p: int| element_text(tv, p),
            ));
        } else {
            assert(string_views(out@) =~= fixture_positions(tv, i + 1).map_values(
                |p: int| element_text(tv, p),
            ));
        }
        match &tokens[i] {
            Token::Close => {
                if names.len() > 0 {
                    names.pop();
                }
            },
            Token::Element(n) => {
                names.push(n.clone());
            },
            _ => {
                names.push(String::new());
            },
        }
        assert(string_views(names@) =~= open_names(tv, i + 1));
        i += 1;
    }
    out
}

/// Extracts the example fixtures of a puzzle page: the text of every `code`
/// element directly inside a `pre` element, in document order. Malformed
/// markup is tolerated, so this always succeeds.
pub fn parse_tests(html: &str) -> (r: Result<Vec<String>, crate::run::AocError>)
    ensures
        r is Ok,
        string_views(r->Ok_0@) == fixtures_of(html_tokens(html@)),
{
    let tokens = document_tokens(html);
    Ok(extract_fixtures(&tokens))
}

/// Nodes entered minus nodes left over positions `a` up to, not including, `b`.
pub open spec fn nesting(toks: Seq<TokenView>, a: int, b: int) -> int
    decreases b - a,
{
    if a >= b {
        0
    } else {
        (if toks[a] is Close {
            -1int
        } else {
            1int
        }) + nesting(toks, a + 1, b)
    }
}

/// All text tokens of `s` concatenated, with nothing between them.
pub open spec fn all_text(s: Seq<TokenView>) -> Seq<char>
    decreases s.len(),
{
    if s.len() == 0 {
        Seq::empty()
    } else {
        (match s[0] {
            TokenView::Text(t) => t,
            _ => Seq::empty(),
        }) + all_text(s.drop_first())
    }
}

proof fn lemma_fixture_positions(toks: Seq<TokenView>, k: int)
    requires
        0 <= k,
    ensures
        forall|a: int|
            0 <= a < fixture_positions(toks, k).len() ==> 0 <= #[trigger] fixture_positions(
                toks,
                k,
            )[a] < k,
        forall|a: int, b: int|
            0 <= a < b < fixture_positions(toks, k).len() ==> fixture_positions(toks, k)[a]
                < fixture_positions(toks, k)[b],
        forall|i: int|
            0 <= i < k ==> (is_fixture_start(toks, i) <==> fixture_positions(toks, k).contains(i)),
    decreases k,
{
    if k > 0 {
        lemma_fixture_positions(toks, k - 1);
        let p = fixture_positions(toks, k - 1);
        if is_fixture_start(toks, k - 1) {
            assert(p.push(k - 1)[p.len() as int] == k - 1);
            assert forall|i: int| 0 <= i < k implies (is_fixture_start(toks, i)
                <==> fixture_positions(toks, k).contains(i)) by {
                if p.contains(i) {
                    let a = choose|a: int| 0 <= a < p.len() && p[a] == i;
                    assert(p.push(k - 1)[a] == i);
                }
                if i == k - 1 {
                    assert(p.push(k - 1)[p.len() as int] == i);
                }
            }
        }
    }
}

/// Every `code` element directly inside a `pre` element gives exactly one
/// fixture, nothing else gives one, and the fixtures come in the order in
/// which their elements appear in the document.
pub proof fn law_fixtures_in_document_order(toks: Seq<TokenView>)
    ensures
        ({
            let pos = fixture_positions(toks, toks.len() as int);
            &&& fixtures_of(toks).len() == pos.len()
            &&& forall|a: int, b: int| 0 <= a < b < pos.len() ==> pos[a] < pos[b]
            &&& forall|i: int| is_fixture_start(toks, i) <==> pos.contains(i)
            &&& forall|m: int|
                0 <= m < pos.len() ==> #[trigger] fixtures_of(toks)[m] == element_text(
                    toks,
                    pos[m],
                )
        }),
{
    let n = toks.len() as int;
    lemma_fixture_positions(toks, n);
    let pos = fixture_positions(toks, n);
    assert forall|i: int| is_fixture_start(toks, i) <==> pos.contains(i) by {
        if pos.contains(i) {
            let a = choose|a: int| 0 <= a < pos.len() && pos[a] == i;
            assert(0 <= pos[a] < n);
        }
    }
}

/// A `code` element whose parent is not a `pre` element never gives a
/// fixture, whatever it holds.
pub proof fn law_code_outside_pre_excluded(toks: Seq<TokenView>, i: int)
    requires
        0 <= i < toks.len(),
        toks[i] == TokenView::Element(code_tag()),
        open_names(toks, i).len() == 0 || open_names(toks, i).last() != pre_tag(),
    ensures
        !fixture_positions(toks, toks.len() as int).contains(i),
{
    lemma_fixture_positions(toks, toks.len() as int);
    assert(!is_fixture_start(toks, i));
}

/// A page without any `code` element directly inside a `pre` element has no
/// fixtures.
pub proof fn law_no_fixtures_when_nothing_qualifies(toks: Seq<TokenView>)
    requires
        forall|i: int| !is_fixture_start(toks, i),
    ensures
        fixtures_of(toks) == Seq::<Seq<char>>::empty(),
{
    law_fixtures_in_document_order(toks);
    let pos = fixture_positions(toks, toks.len() as int);
    if pos.len() > 0 {
        assert(pos.contains(pos[0]));
    }
    assert(fixtures_of(toks) =~= Seq::<Seq<char>>::empty());
}

proof fn lemma_inner_text_is_all_text(toks: Seq<TokenView>, j: int, depth: int, e: int)
    requires
        0 <= j <= e < toks.len(),
        toks[e] is Close,
        forall|m: int| j <= m <= e ==> depth + #[trigger] nesting(toks, j, m) >= 1,
        depth + nesting(toks, j, e) == 1,
    ensures
        inner_text(toks, j, depth) == all_text(toks.subrange(j, e)),
    decreases e - j,
{
    assert(nesting(toks, j, j) == 0);
    if j == e {
        assert(inner_text(toks, j + 1, depth - 1) == Seq::<char>::empty());
        assert(toks.subrange(j, e) =~= Seq::<TokenView>::empty());
    } else {
        let step: int = if toks[j] is Close {
            -1
        } else {
            1
        };
        assert forall|m: int| j + 1 <= m <= e implies (depth + step) + #[trigger] nesting(
            toks,
            j + 1,
            m,
        ) >= 1 by {
            assert(nesting(toks, j, m) == step + nesting(toks, j + 1, m));
        }
        assert(nesting(toks, j, e) == step + nesting(toks, j + 1, e));
        assert(nesting(toks, j, j + 1) == step + nesting(toks, j + 1, j + 1));
        lemma_inner_text_is_all_text(toks, j + 1, depth + step, e);
        assert(toks.subrange(j, e).drop_first() =~= toks.subrange(j + 1, e));
        assert(toks.subrange(j, e)[0] == toks[j]);
    }
}

/// The text of an element is all the text between its opening and its close,
/// concatenated flush: markup nested inside it adds no separator.
pub proof fn law_element_text_is_flush_concatenation(toks: Seq<TokenView>, i: int, e: int)
    requires
        0 <= i < e < toks.len(),
        toks[e] is Close,
        forall|m: int| i + 1 <= m <= e ==> #[trigger] nesting(toks, i + 1, m) >= 0,
        nesting(toks, i + 1, e) == 0,
    ensures
        element_text(toks, i) == all_text(toks.subrange(i + 1, e)),
{
    lemma_inner_text_is_all_text(toks, i + 1, 1, e);
}

} // verus!
